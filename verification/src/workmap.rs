//! The key of a controller lane (a graph and a controller) and a map keyed
//! by it that keeps its entries in key order, as `BTreeMap` does.

use vstd::prelude::*;

use crate::text::{chars_lt, compare_text, lemma_chars_lt_total, lemma_chars_lt_transitive, Precedence};

verus! {

/// One controller's lane of work for one graph.
#[derive(Clone, Debug, PartialEq, Eq)]
pub struct ControllerWorkKey {
    graph_id: u128,
    controller: String,
}

impl View for ControllerWorkKey {
    type V = (u128, Seq<char>);

    closed spec fn view(&self) -> (u128, Seq<char>) {
        (self.graph_id, self.controller@)
    }
}

/// The order of lane keys: by graph, then by controller name.
pub open spec fn key_lt(a: (u128, Seq<char>), b: (u128, Seq<char>)) -> bool {
    a.0 < b.0 || (a.0 == b.0 && chars_lt(a.1, b.1))
}

/// Key order is a strict total order.
pub proof fn lemma_key_total(a: (u128, Seq<char>), b: (u128, Seq<char>))
    ensures
        a == b || key_lt(a, b) || key_lt(b, a),
        !(key_lt(a, b) && key_lt(b, a)),
        !key_lt(a, a),
{
    lemma_chars_lt_total(a.1, b.1);
}

/// Key order is transitive.
pub proof fn lemma_key_transitive(a: (u128, Seq<char>), b: (u128, Seq<char>), c: (u128, Seq<char>))
    requires
        key_lt(a, b),
        key_lt(b, c),
    ensures
        key_lt(a, c),
{
    if a.0 == b.0 && b.0 == c.0 {
        lemma_chars_lt_transitive(a.1, b.1, c.1);
    }
}

impl ControllerWorkKey {
    /// The lane of `controller` for `graph_id`.
    pub fn new(graph_id: u128, controller: String) -> (key: Self)
        ensures
            key@ == (graph_id, controller@),
    {
        ControllerWorkKey { graph_id, controller }
    }

    /// The graph of this lane.
    pub fn graph_id(&self) -> (graph: u128)
        ensures
            graph == self@.0,
    {
        self.graph_id
    }

    /// The controller of this lane.
    pub fn controller(&self) -> (name: &String)
        ensures
            name@ == self@.1,
    {
        &self.controller
    }

    /// A copy of this key.
    pub fn copied(&self) -> (key: Self)
        ensures
            key@ == self@,
    {
        ControllerWorkKey { graph_id: self.graph_id, controller: self.controller.clone() }
    }

    /// Where this key stands relative to `other`.
    pub fn compare(&self, other: &ControllerWorkKey) -> (p: Precedence)
        ensures
            p == Precedence::Same <==> self@ == other@,
            p == Precedence::Before <==> key_lt(self@, other@),
            p == Precedence::After <==> key_lt(other@, self@),
    {
        proof {
            lemma_key_total(self@, other@);
        }
        if self.graph_id < other.graph_id {
            Precedence::Before
        } else if self.graph_id > other.graph_id {
            Precedence::After
        } else {
            compare_text(self.controller.as_str(), other.controller.as_str())
        }
    }
}

/// The keys of `entries`, in order.
pub open spec fn keys_of<V>(entries: Seq<(ControllerWorkKey, V)>) -> Seq<(u128, Seq<char>)> {
    entries.map_values(|e: (ControllerWorkKey, V)| e.0@)
}

/// Each key comes strictly after the one before it.
pub open spec fn keys_ascending(keys: Seq<(u128, Seq<char>)>) -> bool {
    forall|i: int, j: int| 0 <= i < j < keys.len() ==> key_lt(keys[i], keys[j])
}

/// The map that sorted `entries` hold.
pub open spec fn entries_map<V>(entries: Seq<(ControllerWorkKey, V)>) -> Map<(u128, Seq<char>), V> {
    Map::new(
        |k: (u128, Seq<char>)| keys_of(entries).contains(k),
        |k: (u128, Seq<char>)| entries[choose|i: int| 0 <= i < entries.len() && keys_of(entries)[i] == k].1,
    )
}

proof fn lemma_entry_at<V>(entries: Seq<(ControllerWorkKey, V)>, i: int)
    requires
        keys_ascending(keys_of(entries)),
        0 <= i < entries.len(),
    ensures
        entries_map(entries).contains_key(entries[i].0@),
        entries_map(entries)[entries[i].0@] == entries[i].1,
{
    let keys = keys_of(entries);
    assert(keys[i] == entries[i].0@);
    assert(keys.contains(keys[i]));
    let j = choose|j: int| 0 <= j < entries.len() && keys_of(entries)[j] == entries[i].0@;
    if j < i {
        lemma_key_total(keys[j], keys[i]);
    } else if j > i {
        lemma_key_total(keys[i], keys[j]);
    }
}

proof fn lemma_entries_insert<V>(entries: Seq<(ControllerWorkKey, V)>, pos: int, key: ControllerWorkKey, value: V)
    requires
        keys_ascending(keys_of(entries)),
        keys_ascending(keys_of(entries.insert(pos, (key, value)))),
        0 <= pos <= entries.len(),
    ensures
        entries_map(entries.insert(pos, (key, value))) == entries_map(entries).insert(key@, value),
{
    let after = entries.insert(pos, (key, value));
    let a = entries_map(after);
    let b = entries_map(entries).insert(key@, value);
    assert forall|k: (u128, Seq<char>)| a.contains_key(k) <==> b.contains_key(k) by {
        if a.contains_key(k) {
            let i = choose|i: int| 0 <= i < after.len() && keys_of(after)[i] == k;
            if i < pos {
                assert(keys_of(entries)[i] == k);
            } else if i > pos {
                assert(keys_of(entries)[i - 1] == k);
            }
        }
        if entries_map(entries).contains_key(k) {
            let i = choose|i: int| 0 <= i < entries.len() && keys_of(entries)[i] == k;
            if i < pos {
                assert(keys_of(after)[i] == k);
            } else {
                assert(keys_of(after)[i + 1] == k);
            }
        }
        if k == key@ {
            assert(keys_of(after)[pos] == k);
        }
    }
    assert forall|k: (u128, Seq<char>)| #[trigger] a.contains_key(k) implies a[k] == b[k] by {
        let i = choose|i: int| 0 <= i < after.len() && keys_of(after)[i] == k;
        lemma_entry_at(after, i);
        if i < pos {
            lemma_entry_at(entries, i);
            lemma_key_total(keys_of(after)[i], keys_of(after)[pos]);
        } else if i > pos {
            lemma_entry_at(entries, i - 1);
            lemma_key_total(keys_of(after)[i], keys_of(after)[pos]);
        }
    }
    assert(a =~= b);
}

proof fn lemma_entries_update<V>(entries: Seq<(ControllerWorkKey, V)>, pos: int, key: ControllerWorkKey, value: V)
    requires
        keys_ascending(keys_of(entries)),
        0 <= pos < entries.len(),
        entries[pos].0@ == key@,
    ensures
        keys_of(entries.update(pos, (key, value))) == keys_of(entries),
        entries_map(entries.update(pos, (key, value))) == entries_map(entries).insert(key@, value),
{
    let after = entries.update(pos, (key, value));
    assert(keys_of(after) =~= keys_of(entries));
    let a = entries_map(after);
    let b = entries_map(entries).insert(key@, value);
    assert forall|k: (u128, Seq<char>)| a.contains_key(k) <==> b.contains_key(k) by {
        if k == key@ {
            assert(keys_of(after)[pos] == k);
        }
    }
    assert forall|k: (u128, Seq<char>)| #[trigger] a.contains_key(k) implies a[k] == b[k] by {
        let i = choose|i: int| 0 <= i < after.len() && keys_of(after)[i] == k;
        lemma_entry_at(after, i);
        if i != pos {
            lemma_entry_at(entries, i);
            lemma_key_total(keys_of(after)[i], keys_of(after)[pos]);
        }
    }
    assert(a =~= b);
}

proof fn lemma_entries_remove<V>(entries: Seq<(ControllerWorkKey, V)>, pos: int)
    requires
        keys_ascending(keys_of(entries)),
        0 <= pos < entries.len(),
    ensures
        keys_ascending(keys_of(entries.remove(pos))),
        entries_map(entries.remove(pos)) == entries_map(entries).remove(entries[pos].0@),
{
    let after = entries.remove(pos);
    let gone = entries[pos].0@;
    assert(keys_of(entries)[pos] == gone);
    assert(keys_of(after) =~= keys_of(entries).remove(pos));
    let a = entries_map(after);
    let b = entries_map(entries).remove(gone);
    assert forall|k: (u128, Seq<char>)| a.contains_key(k) <==> b.contains_key(k) by {
        if a.contains_key(k) {
            let i = choose|i: int| 0 <= i < after.len() && keys_of(after)[i] == k;
            if i < pos {
                assert(keys_of(entries)[i] == k);
                lemma_key_total(keys_of(entries)[i], gone);
            } else {
                assert(keys_of(entries)[i + 1] == k);
                lemma_key_total(keys_of(entries)[i + 1], gone);
            }
        }
        if b.contains_key(k) {
            let i = choose|i: int| 0 <= i < entries.len() && keys_of(entries)[i] == k;
            if i < pos {
                assert(keys_of(after)[i] == k);
            } else {
                assert(i != pos);
                assert(keys_of(after)[i - 1] == k);
            }
        }
    }
    assert forall|k: (u128, Seq<char>)| #[trigger] a.contains_key(k) implies a[k] == b[k] by {
        let i = choose|i: int| 0 <= i < after.len() && keys_of(after)[i] == k;
        lemma_entry_at(after, i);
        if i < pos {
            lemma_entry_at(entries, i);
        } else {
            lemma_entry_at(entries, i + 1);
        }
    }
    assert(a =~= b);
}

/// A map from lane keys to values, in key order.
#[derive(Debug)]
pub struct WorkMap<V> {
    entries: Vec<(ControllerWorkKey, V)>,
}

impl<V> View for WorkMap<V> {
    type V = Map<(u128, Seq<char>), V>;

    closed spec fn view(&self) -> Map<(u128, Seq<char>), V> {
        entries_map(self.entries@)
    }
}

impl<V> WorkMap<V> {
    #[verifier::type_invariant]
    closed spec fn well_formed(&self) -> bool {
        keys_ascending(keys_of(self.entries@))
    }

    /// The keys in ascending order.
    pub closed spec fn ordered_keys(&self) -> Seq<(u128, Seq<char>)> {
        keys_of(self.entries@)
    }

    /// An empty map.
    pub fn new() -> (map: Self)
        ensures
            map@ == Map::<(u128, Seq<char>), V>::empty(),
    {
        let map = WorkMap { entries: Vec::new() };
        assert(map@ =~= Map::<(u128, Seq<char>), V>::empty());
        map
    }

    /// The entries in ascending key order: each key once, with its value.
    pub fn entries(&self) -> (entries: &Vec<(ControllerWorkKey, V)>)
        ensures
            keys_of(entries@) == self.ordered_keys(),
            keys_ascending(self.ordered_keys()),
            forall|k: (u128, Seq<char>)| self@.contains_key(k) <==> self.ordered_keys().contains(k),
            forall|i: int| 0 <= i < entries@.len() ==> self@[#[trigger] entries@[i].0@] == entries@[i].1,
    {
        proof {
            use_type_invariant(self);
            assert forall|i: int| 0 <= i < self.entries@.len() implies self@[#[trigger] self.entries@[i].0@]
                == self.entries@[i].1 by {
                lemma_entry_at(self.entries@, i);
            }
        }
        &self.entries
    }

    /// Where `key` is, or where it would go.
    fn locate(&self, key: &ControllerWorkKey) -> (r: (bool, usize))
        ensures
            r.1 <= self.entries@.len(),
            forall|j: int| 0 <= j < r.1 ==> key_lt(#[trigger] keys_of(self.entries@)[j], key@),
            forall|j: int| r.1 < j < self.entries@.len() ==> key_lt(key@, #[trigger] keys_of(self.entries@)[j]),
            r.0 ==> r.1 < self.entries@.len() && keys_of(self.entries@)[r.1 as int] == key@,
            !r.0 ==> (r.1 < self.entries@.len() ==> key_lt(key@, keys_of(self.entries@)[r.1 as int])),
            r.0 <==> self@.contains_key(key@),
    {
        proof {
            use_type_invariant(self);
        }
        let ghost keys = keys_of(self.entries@);
        let n = self.entries.len();
        let mut i: usize = 0;
        while i < n
            invariant
                n == self.entries@.len(),
                keys == keys_of(self.entries@),
                keys_ascending(keys),
                i <= n,
                forall|j: int| 0 <= j < i ==> key_lt(#[trigger] keys[j], key@),
            decreases n - i,
        {
            assert(keys[i as int] == self.entries@[i as int].0@);
            match self.entries[i].0.compare(key) {
                Precedence::Before => {},
                Precedence::Same => {
                    proof {
                        assert forall|j: int| i < j < n implies key_lt(key@, #[trigger] keys[j]) by {
                        }
                        assert(keys.contains(key@));
                    }
                    return (true, i);
                },
                Precedence::After => {
                    proof {
                        assert forall|j: int| i < j < n implies key_lt(key@, #[trigger] keys[j]) by {
                            lemma_key_transitive(key@, keys[i as int], keys[j]);
                        }
                        if keys.contains(key@) {
                            let j = choose|j: int| 0 <= j < keys.len() && keys[j] == key@;
                            lemma_key_total(key@, key@);
                            if j < i {
                            } else if j > i {
                            }
                        }
                    }
                    return (false, i);
                },
            }
            i = i + 1;
        }
        proof {
            if keys.contains(key@) {
                let j = choose|j: int| 0 <= j < keys.len() && keys[j] == key@;
                lemma_key_total(key@, key@);
            }
        }
        (false, n)
    }

    /// The value at `key`, if any.
    pub fn get(&self, key: &ControllerWorkKey) -> (value: Option<&V>)
        ensures
            value matches Some(v) ==> self@.contains_key(key@) && *v == self@[key@],
            value is None ==> !self@.contains_key(key@),
    {
        proof {
            use_type_invariant(self);
        }
        let (found, at) = self.locate(key);
        if found {
            proof {
                lemma_entry_at(self.entries@, at as int);
            }
            Some(&self.entries[at].1)
        } else {
            None
        }
    }

    /// Sets the value at `key`.
    pub fn insert(&mut self, key: ControllerWorkKey, value: V)
        ensures
            final(self)@ == old(self)@.insert(key@, value),
    {
        proof {
            use_type_invariant(&*self);
        }
        let (found, at) = self.locate(&key);
        let mut entries: Vec<(ControllerWorkKey, V)> = Vec::new();
        std::mem::swap(&mut entries, &mut self.entries);
        let ghost before = entries@;
        if found {
            proof {
                lemma_entries_update(before, at as int, key, value);
            }
            entries.set(at, (key, value));
        } else {
            entries.insert(at, (key, value));
            proof {
                let after = before.insert(at as int, (key, value));
                assert(entries@ == after);
                assert forall|i: int, j: int| 0 <= i < j < after.len() implies key_lt(
                    keys_of(after)[i],
                    keys_of(after)[j],
                ) by {
                    if j < at {
                        assert(keys_of(after)[i] == keys_of(before)[i]);
                        assert(keys_of(after)[j] == keys_of(before)[j]);
                    } else if j == at {
                        assert(keys_of(after)[i] == keys_of(before)[i]);
                    } else if i < at {
                        assert(keys_of(after)[i] == keys_of(before)[i]);
                        assert(keys_of(after)[j] == keys_of(before)[j - 1]);
                        lemma_key_transitive(keys_of(before)[i], key@, keys_of(before)[j - 1]);
                    } else if i == at {
                        assert(keys_of(after)[j] == keys_of(before)[j - 1]);
                    } else {
                        assert(keys_of(after)[i] == keys_of(before)[i - 1]);
                        assert(keys_of(after)[j] == keys_of(before)[j - 1]);
                    }
                }
                lemma_entries_insert(before, at as int, key, value);
            }
        }
        self.entries = entries;
    }

    /// Removes the value at `key` and hands it back, if there was one.
    pub fn take(&mut self, key: &ControllerWorkKey) -> (value: Option<V>)
        ensures
            value matches Some(v) ==> old(self)@.contains_key(key@) && v == old(self)@[key@],
            value is None ==> !old(self)@.contains_key(key@),
            final(self)@ == old(self)@.remove(key@),
    {
        proof {
            use_type_invariant(&*self);
        }
        let (found, at) = self.locate(key);
        if !found {
            assert(self@.remove(key@) =~= self@);
            return None;
        }
        let mut entries: Vec<(ControllerWorkKey, V)> = Vec::new();
        std::mem::swap(&mut entries, &mut self.entries);
        let ghost before = entries@;
        proof {
            lemma_entry_at(before, at as int);
            lemma_entries_remove(before, at as int);
        }
        let (_, value) = entries.remove(at);
        self.entries = entries;
        Some(value)
    }
}

} // verus!
