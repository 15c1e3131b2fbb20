//! Stall diagnostics for the simulator: a wait-for graph between simulated
//! parties and the classification of a run that stopped making progress.

use vstd::prelude::*;

use crate::cycles::{acyclic, closed_graph, find_cycle, first_cycle, graph_of, has_edge, is_cycle};
use crate::text::{chars_lt, compare_text, lemma_chars_lt_total, lemma_chars_lt_transitive, Precedence};

verus! {

/// A party that can wait for another.
#[derive(Clone, Debug, PartialEq, Eq, Hash, PartialOrd, Ord)]
pub enum WaitNode {
    Component(String),
    Input(String),
    ControllerOperation(String),
    Resource(String),
    ExternalInput(String),
    Timer(String),
}

/// The rank of a node's variant in declaration order.
pub open spec fn node_tag(n: WaitNode) -> int {
    match n {
        WaitNode::Component(_) => 0,
        WaitNode::Input(_) => 1,
        WaitNode::ControllerOperation(_) => 2,
        WaitNode::Resource(_) => 3,
        WaitNode::ExternalInput(_) => 4,
        WaitNode::Timer(_) => 5,
    }
}

/// The name that a node carries.
pub open spec fn node_text(n: WaitNode) -> Seq<char> {
    match n {
        WaitNode::Component(s) => s@,
        WaitNode::Input(s) => s@,
        WaitNode::ControllerOperation(s) => s@,
        WaitNode::Resource(s) => s@,
        WaitNode::ExternalInput(s) => s@,
        WaitNode::Timer(s) => s@,
    }
}

/// A node as a plain value: its variant rank and its name.
pub open spec fn node_key(n: WaitNode) -> (int, Seq<char>) {
    (node_tag(n), node_text(n))
}

/// The variant rank of `ExternalInput`.
pub open spec fn external_tag() -> int {
    4
}

/// The order of nodes: by variant, then by name.
pub open spec fn key_lt(a: (int, Seq<char>), b: (int, Seq<char>)) -> bool {
    a.0 < b.0 || (a.0 == b.0 && chars_lt(a.1, b.1))
}

/// The order of edges: by source, then by target.
pub open spec fn edge_lt(
    a: ((int, Seq<char>), (int, Seq<char>)),
    b: ((int, Seq<char>), (int, Seq<char>)),
) -> bool {
    key_lt(a.0, b.0) || (a.0 == b.0 && key_lt(a.1, b.1))
}

proof fn lemma_key_total(a: (int, Seq<char>), b: (int, Seq<char>))
    ensures
        a == b || key_lt(a, b) || key_lt(b, a),
        !(key_lt(a, b) && key_lt(b, a)),
        !key_lt(a, a),
{
    lemma_chars_lt_total(a.1, b.1);
}

proof fn lemma_key_transitive(a: (int, Seq<char>), b: (int, Seq<char>), c: (int, Seq<char>))
    requires
        key_lt(a, b),
        key_lt(b, c),
    ensures
        key_lt(a, c),
{
    if a.0 == b.0 && b.0 == c.0 {
        lemma_chars_lt_transitive(a.1, b.1, c.1);
    }
}

impl WaitNode {
    /// A copy of this node.
    pub fn copied(&self) -> (n: WaitNode)
        ensures
            node_key(n) == node_key(*self),
    {
        match self {
            WaitNode::Component(s) => WaitNode::Component(s.clone()),
            WaitNode::Input(s) => WaitNode::Input(s.clone()),
            WaitNode::ControllerOperation(s) => WaitNode::ControllerOperation(s.clone()),
            WaitNode::Resource(s) => WaitNode::Resource(s.clone()),
            WaitNode::ExternalInput(s) => WaitNode::ExternalInput(s.clone()),
            WaitNode::Timer(s) => WaitNode::Timer(s.clone()),
        }
    }

    fn tag(&self) -> (t: u8)
        ensures
            t as int == node_tag(*self),
    {
        match self {
            WaitNode::Component(_) => 0,
            WaitNode::Input(_) => 1,
            WaitNode::ControllerOperation(_) => 2,
            WaitNode::Resource(_) => 3,
            WaitNode::ExternalInput(_) => 4,
            WaitNode::Timer(_) => 5,
        }
    }

    fn text(&self) -> (s: &str)
        ensures
            s@ == node_text(*self),
    {
        match self {
            WaitNode::Component(s) => s.as_str(),
            WaitNode::Input(s) => s.as_str(),
            WaitNode::ControllerOperation(s) => s.as_str(),
            WaitNode::Resource(s) => s.as_str(),
            WaitNode::ExternalInput(s) => s.as_str(),
            WaitNode::Timer(s) => s.as_str(),
        }
    }

    /// Where this node stands relative to `other` in node order.
    pub fn compare(&self, other: &WaitNode) -> (p: Precedence)
        ensures
            p == Precedence::Same <==> node_key(*self) == node_key(*other),
            p == Precedence::Before <==> key_lt(node_key(*self), node_key(*other)),
            p == Precedence::After <==> key_lt(node_key(*other), node_key(*self)),
    {
        proof {
            lemma_key_total(node_key(*self), node_key(*other));
        }
        let a = self.tag();
        let b = other.tag();
        if a < b {
            Precedence::Before
        } else if a > b {
            Precedence::After
        } else {
            let p = compare_text(self.text(), other.text());
            proof {
                lemma_chars_lt_total(node_text(*self), node_text(*other));
            }
            p
        }
    }
}

/// `from` waits for `to`.
#[derive(Clone, Debug, PartialEq, Eq)]
pub struct WaitEdge {
    pub from: WaitNode,
    pub to: WaitNode,
}

/// An edge as a plain value.
pub open spec fn edge_key(e: WaitEdge) -> ((int, Seq<char>), (int, Seq<char>)) {
    (node_key(e.from), node_key(e.to))
}

/// How a run that stopped making progress ended.
#[derive(Clone, Copy, Debug, PartialEq, Eq, Structural)]
pub enum Quiescence {
    Converged,
    WaitingForTimer,
    ExternallyBlocked,
    Deadlocked,
    Incomplete,
}

/// The classification of a stalled run, with the cycle that deadlocked it
/// (empty otherwise) and every wait edge.
#[derive(Clone, Debug, PartialEq, Eq)]
pub struct StallReport {
    pub classification: Quiescence,
    pub cycle: Vec<WaitNode>,
    pub edges: Vec<WaitEdge>,
}

/// A graph of who waits for whom.
#[derive(Debug)]
pub struct WaitGraph {
    entries: Vec<(WaitNode, Vec<WaitNode>)>,
}

/// The stored adjacency as plain values.
pub open spec fn entries_view(e: Seq<(WaitNode, Vec<WaitNode>)>) -> Seq<((int, Seq<char>), Seq<(int, Seq<char>)>)> {
    Seq::new(e.len(), |i: int| (node_key(e[i].0), e[i].1@.map_values(|n: WaitNode| node_key(n))))
}

/// Sources strictly ascend, and each source's targets strictly ascend and
/// are not empty.
pub open spec fn entries_sorted(v: Seq<((int, Seq<char>), Seq<(int, Seq<char>)>)>) -> bool {
    &&& forall|i: int, j: int| 0 <= i < j < v.len() ==> key_lt(v[i].0, v[j].0)
    &&& forall|i: int| 0 <= i < v.len() ==> v[i].1.len() > 0
    &&& forall|i: int, a: int, b: int|
        0 <= i < v.len() && 0 <= a < b < v[i].1.len() ==> key_lt(v[i].1[a], v[i].1[b])
}

/// The edges that an adjacency holds.
pub open spec fn edge_set(v: Seq<((int, Seq<char>), Seq<(int, Seq<char>)>)>) -> Set<((int, Seq<char>), (int, Seq<char>))> {
    Set::new(
        |e: ((int, Seq<char>), (int, Seq<char>))|
            exists|i: int, j: int| 0 <= i < v.len() && 0 <= j < v[i].1.len() && v[i].0 == e.0 && v[i].1[j] == e.1,
    )
}

/// `c` is a cycle of waits in `edges`.
pub open spec fn is_wait_cycle(edges: Set<((int, Seq<char>), (int, Seq<char>))>, c: Seq<(int, Seq<char>)>) -> bool {
    &&& c.len() >= 2
    &&& c[0] == c[c.len() - 1]
    &&& forall|i: int| 0 <= i < c.len() - 1 ==> #[trigger] edges.contains((c[i], c[i + 1]))
}

type Adjacency = Seq<((int, Seq<char>), Seq<(int, Seq<char>)>)>;

proof fn lemma_insert_source(v: Adjacency, pos: int, f: (int, Seq<char>), t: (int, Seq<char>))
    requires
        entries_sorted(v),
        0 <= pos <= v.len(),
        forall|i: int| 0 <= i < pos ==> key_lt(#[trigger] v[i].0, f),
        pos < v.len() ==> key_lt(f, v[pos].0),
    ensures
        entries_sorted(v.insert(pos, (f, seq![t]))),
        edge_set(v.insert(pos, (f, seq![t]))) == edge_set(v).insert((f, t)),
{
    let w = v.insert(pos, (f, seq![t]));
    assert forall|i: int, j: int| 0 <= i < j < w.len() implies key_lt(w[i].0, w[j].0) by {
        if j < pos {
        } else if j == pos {
        } else if i < pos {
            lemma_key_transitive(v[i].0, f, v[pos].0);
            if j - 1 > pos {
                lemma_key_transitive(v[i].0, v[pos].0, v[j - 1].0);
            }
        } else if i == pos {
            if j - 1 > pos {
                lemma_key_transitive(f, v[pos].0, v[j - 1].0);
            }
        } else {
        }
    }
    assert forall|i: int, a: int, b: int|
        0 <= i < w.len() && 0 <= a < b < w[i].1.len() implies key_lt(w[i].1[a], w[i].1[b]) by {
        if i < pos {
            assert(w[i] == v[i]);
        } else if i > pos {
            assert(w[i] == v[i - 1]);
        }
    }
    assert(edge_set(w) =~= edge_set(v).insert((f, t))) by {
        assert forall|e| edge_set(w).contains(e) implies edge_set(v).insert((f, t)).contains(e) by {
            let (i, j) = choose|i: int, j: int|
                0 <= i < w.len() && 0 <= j < w[i].1.len() && w[i].0 == e.0 && w[i].1[j] == e.1;
            if i < pos {
                assert(v[i].0 == e.0 && v[i].1[j] == e.1);
            } else if i > pos {
                assert(v[i - 1].0 == e.0 && v[i - 1].1[j] == e.1);
            }
        }
        assert forall|e| edge_set(v).insert((f, t)).contains(e) implies edge_set(w).contains(e) by {
            if e == (f, t) {
                assert(w[pos].0 == e.0 && w[pos].1[0] == e.1);
            } else {
                let (i, j) = choose|i: int, j: int|
                    0 <= i < v.len() && 0 <= j < v[i].1.len() && v[i].0 == e.0 && v[i].1[j] == e.1;
                if i < pos {
                    assert(w[i].0 == e.0 && w[i].1[j] == e.1);
                } else {
                    assert(w[i + 1].0 == e.0 && w[i + 1].1[j] == e.1);
                }
            }
        }
    }
}

proof fn lemma_insert_target(v: Adjacency, pos: int, tp: int, t: (int, Seq<char>))
    requires
        entries_sorted(v),
        0 <= pos < v.len(),
        0 <= tp <= v[pos].1.len(),
        forall|a: int| 0 <= a < tp ==> key_lt(#[trigger] v[pos].1[a], t),
        tp < v[pos].1.len() ==> key_lt(t, v[pos].1[tp]),
    ensures
        entries_sorted(v.update(pos, (v[pos].0, v[pos].1.insert(tp, t)))),
        edge_set(v.update(pos, (v[pos].0, v[pos].1.insert(tp, t)))) == edge_set(v).insert((v[pos].0, t)),
{
    let ts = v[pos].1;
    let nt = ts.insert(tp, t);
    let w = v.update(pos, (v[pos].0, nt));
    assert forall|i: int, a: int, b: int|
        0 <= i < w.len() && 0 <= a < b < w[i].1.len() implies key_lt(w[i].1[a], w[i].1[b]) by {
        if i == pos {
            if b < tp {
            } else if b == tp {
            } else if a < tp {
                lemma_key_transitive(ts[a], t, ts[tp]);
                if b - 1 > tp {
                    lemma_key_transitive(ts[a], ts[tp], ts[b - 1]);
                }
            } else if a == tp {
                if b - 1 > tp {
                    lemma_key_transitive(t, ts[tp], ts[b - 1]);
                }
            } else {
            }
        }
    }
    assert(edge_set(w) =~= edge_set(v).insert((v[pos].0, t))) by {
        assert forall|e| edge_set(w).contains(e) implies edge_set(v).insert((v[pos].0, t)).contains(e) by {
            let (i, j) = choose|i: int, j: int|
                0 <= i < w.len() && 0 <= j < w[i].1.len() && w[i].0 == e.0 && w[i].1[j] == e.1;
            if i != pos {
                assert(v[i].0 == e.0 && v[i].1[j] == e.1);
            } else if j < tp {
                assert(v[i].0 == e.0 && v[i].1[j] == e.1);
            } else if j > tp {
                assert(v[i].0 == e.0 && v[i].1[j - 1] == e.1);
            }
        }
        assert forall|e| edge_set(v).insert((v[pos].0, t)).contains(e) implies edge_set(w).contains(e) by {
            if e == (v[pos].0, t) {
                assert(w[pos].0 == e.0 && w[pos].1[tp] == e.1);
            } else {
                let (i, j) = choose|i: int, j: int|
                    0 <= i < v.len() && 0 <= j < v[i].1.len() && v[i].0 == e.0 && v[i].1[j] == e.1;
                if i != pos {
                    assert(w[i].0 == e.0 && w[i].1[j] == e.1);
                } else if j < tp {
                    assert(w[i].0 == e.0 && w[i].1[j] == e.1);
                } else {
                    assert(w[i].0 == e.0 && w[i].1[j + 1] == e.1);
                }
            }
        }
    }
}

/// The edges as plain values, in list order.
pub open spec fn edge_keys(edges: Seq<WaitEdge>) -> Seq<((int, Seq<char>), (int, Seq<char>))> {
    edges.map_values(|e: WaitEdge| edge_key(e))
}

/// Each edge comes strictly after the one before it.
pub open spec fn edges_ascending(keys: Seq<((int, Seq<char>), (int, Seq<char>))>) -> bool {
    forall|a: int, b: int| 0 <= a < b < keys.len() ==> edge_lt(keys[a], keys[b])
}

/// The index graph of an adjacency: node `a` has an edge to node `b` when
/// some target of source `a` is source `b`.
pub open spec fn index_edge(v: Adjacency, a: int, b: int) -> bool {
    0 <= a < v.len() && 0 <= b < v.len() && exists|j: int| 0 <= j < v[a].1.len() && v[a].1[j] == v[b].0
}

/// The position of the entry whose source is `key`, if any.
pub open spec fn source_index(v: Adjacency, key: (int, Seq<char>)) -> Option<int> {
    if exists|i: int| 0 <= i < v.len() && v[i].0 == key {
        Some(choose|i: int| 0 <= i < v.len() && v[i].0 == key)
    } else {
        None
    }
}

/// The first `j` targets of entry `a` as entry positions, in order, leaving
/// out targets that wait on nothing themselves.
pub open spec fn index_row(v: Adjacency, a: int, j: int) -> Seq<usize>
    decreases j,
{
    if j <= 0 {
        Seq::empty()
    } else {
        let rest = index_row(v, a, j - 1);
        match source_index(v, v[a].1[j - 1]) {
            Some(b) => rest.push(b as usize),
            None => rest,
        }
    }
}

/// The wait graph over entry positions, each entry's targets in order.
pub open spec fn index_adjacency(v: Adjacency) -> Seq<Seq<usize>> {
    Seq::new(v.len(), |a: int| index_row(v, a, v[a].1.len() as int))
}

proof fn lemma_sources_distinct(v: Adjacency, i: int, k: int)
    requires
        entries_sorted(v),
        0 <= i < v.len(),
        0 <= k < v.len(),
        v[i].0 == v[k].0,
    ensures
        i == k,
{
    lemma_key_total(v[i].0, v[k].0);
}

impl View for WaitGraph {
    type V = Set<((int, Seq<char>), (int, Seq<char>))>;

    closed spec fn view(&self) -> Self::V {
        edge_set(entries_view(self.entries@))
    }
}

impl WaitGraph {
    #[verifier::type_invariant]
    closed spec fn well_formed(&self) -> bool {
        entries_sorted(entries_view(self.entries@))
    }

    /// A graph without edges.
    pub fn new() -> (g: Self)
        ensures
            g@ == Set::<((int, Seq<char>), (int, Seq<char>))>::empty(),
    {
        let g = WaitGraph { entries: Vec::new() };
        assert(g@ =~= Set::<((int, Seq<char>), (int, Seq<char>))>::empty());
        g
    }

    /// Records that `from` waits for `to`.
    pub fn add_edge(&mut self, from: WaitNode, to: WaitNode)
        ensures
            final(self)@ == old(self)@.insert((node_key(from), node_key(to))),
    {
        proof {
            use_type_invariant(&*self);
        }
        let mut entries: Vec<(WaitNode, Vec<WaitNode>)> = Vec::new();
        std::mem::swap(&mut entries, &mut self.entries);
        let ghost v = entries_view(entries@);
        let len = entries.len();
        let mut pos: usize = 0;
        while pos < len && entries[pos].0.compare(&from) == Precedence::Before
            invariant
                len == entries@.len(),
                pos <= len,
                v == entries_view(entries@),
                forall|i: int| 0 <= i < pos ==> key_lt(#[trigger] v[i].0, node_key(from)),
            decreases len - pos,
        {
            pos = pos + 1;
        }
        if pos < len && entries[pos].0.compare(&from) == Precedence::Same {
            let ghost before_remove = entries@;
            let (key, mut targets) = entries.remove(pos);
            assert(node_key(key) == v[pos as int].0);
            let ghost ts = targets@.map_values(|n: WaitNode| node_key(n));
            assert(ts == v[pos as int].1);
            let tl = targets.len();
            let mut tp: usize = 0;
            while tp < tl && targets[tp].compare(&to) == Precedence::Before
                invariant
                    tl == targets@.len(),
                    tp <= tl,
                    ts == targets@.map_values(|n: WaitNode| node_key(n)),
                    forall|a: int| 0 <= a < tp ==> key_lt(#[trigger] ts[a], node_key(to)),
                decreases tl - tp,
            {
                tp = tp + 1;
            }
            if tp < tl && targets[tp].compare(&to) == Precedence::Same {
                entries.insert(pos, (key, targets));
                proof {
                    assert(entries_view(entries@) =~= v);
                    assert(v[pos as int].0 == node_key(from) && v[pos as int].1[tp as int] == node_key(to));
                    assert(edge_set(v).insert((node_key(from), node_key(to))) =~= edge_set(v));
                }
            } else {
                let ghost tk = node_key(to);
                targets.insert(tp, to);
                assert(targets@.map_values(|n: WaitNode| node_key(n)) =~= ts.insert(tp as int, tk));
                entries.insert(pos, (key, targets));
                proof {
                    let w = v.update(pos as int, (v[pos as int].0, ts.insert(tp as int, tk)));
                    assert forall|i: int| 0 <= i < w.len() implies #[trigger] entries_view(entries@)[i] == w[i] by {
                        if i != pos {
                            assert(entries@[i] == before_remove[i]);
                        }
                    }
                    if tp < tl {
                        lemma_key_total(ts[tp as int], node_key(to));
                    }
                    lemma_insert_target(v, pos as int, tp as int, node_key(to));
                    assert(entries_view(entries@) =~= v.update(
                        pos as int,
                        (v[pos as int].0, v[pos as int].1.insert(tp as int, node_key(to))),
                    ));
                }
            }
        } else {
            let mut targets: Vec<WaitNode> = Vec::new();
            targets.push(to);
            let ghost fk = node_key(from);
            let ghost tk = node_key(to);
            assert(targets@.map_values(|n: WaitNode| node_key(n)) =~= seq![tk]);
            let ghost before_insert = entries@;
            entries.insert(pos, (from, targets));
            proof {
                let w = v.insert(pos as int, (fk, seq![tk]));
                assert forall|i: int| 0 <= i < w.len() implies #[trigger] entries_view(entries@)[i] == w[i] by {
                    if i < pos {
                        assert(entries@[i] == before_insert[i]);
                    } else if i > pos {
                        assert(entries@[i] == before_insert[i - 1]);
                    }
                }
                if pos < len {
                    lemma_key_total(v[pos as int].0, fk);
                }
                lemma_insert_source(v, pos as int, fk, node_key(to));
                assert(entries_view(entries@) =~= v.insert(pos as int, (fk, seq![node_key(to)])));
            }
        }
        self.entries = entries;
    }
}


impl WaitGraph {
    /// Every edge, ascending by source and then by target.
    fn edge_list(&self) -> (edges: Vec<WaitEdge>)
        ensures
            edges_ascending(edge_keys(edges@)),
            edge_keys(edges@).to_set() == self@,
    {
        proof {
            use_type_invariant(self);
        }
        let ghost v = entries_view(self.entries@);
        let mut out: Vec<WaitEdge> = Vec::new();
        let n = self.entries.len();
        let mut i: usize = 0;
        while i < n
            invariant
                n == v.len(),
                v == entries_view(self.entries@),
                entries_sorted(v),
                i <= n,
                edges_ascending(edge_keys(out@)),
                forall|a: int| 0 <= a < out@.len() ==> edge_set(v).contains(#[trigger] edge_keys(out@)[a]),
                forall|a: int, i2: int, j2: int|
                    #![trigger edge_keys(out@)[a], v[i2].1[j2]]
                    0 <= a < out@.len() && i <= i2 < n && 0 <= j2 < v[i2].1.len() ==> edge_lt(
                        edge_keys(out@)[a],
                        (v[i2].0, v[i2].1[j2]),
                    ),
                forall|i2: int, j2: int|
                    0 <= i2 < i && 0 <= j2 < v[i2].1.len() ==> edge_keys(out@).contains((v[i2].0, v[i2].1[j2])),
            decreases n - i,
        {
            let targets = &self.entries[i].1;
            let m = targets.len();
            let mut j: usize = 0;
            while j < m
                invariant
                    n == v.len(),
                    v == entries_view(self.entries@),
                    entries_sorted(v),
                    i < n,
                    m == v[i as int].1.len(),
                    targets@ == self.entries@[i as int].1@,
                    j <= m,
                    edges_ascending(edge_keys(out@)),
                    forall|a: int| 0 <= a < out@.len() ==> edge_set(v).contains(#[trigger] edge_keys(out@)[a]),
                    forall|a: int, i2: int, j2: int|
                        #![trigger edge_keys(out@)[a], v[i2].1[j2]]
                        0 <= a < out@.len() && ((i2 == i && j <= j2 < v[i2].1.len()) || (i < i2 < n && 0 <= j2
                            < v[i2].1.len())) ==> edge_lt(edge_keys(out@)[a], (v[i2].0, v[i2].1[j2])),
                    forall|i2: int, j2: int|
                        0 <= i2 < i && 0 <= j2 < v[i2].1.len() ==> edge_keys(out@).contains((v[i2].0, v[i2].1[j2])),
                    forall|j2: int| 0 <= j2 < j ==> edge_keys(out@).contains((v[i as int].0, v[i as int].1[j2])),
                decreases m - j,
            {
                let ghost before = out@;
                let ghost e = (v[i as int].0, v[i as int].1[j as int]);
                out.push(WaitEdge { from: self.entries[i].0.copied(), to: targets[j].copied() });
                proof {
                    assert(edge_keys(out@) =~= edge_keys(before).push(e));
                    assert(edge_set(v).contains(e));
                    assert forall|i2: int, j2: int|
                        (i2 == i && j + 1 <= j2 < v[i2].1.len()) || (i < i2 < n && 0 <= j2 < v[i2].1.len())
                        implies edge_lt(e, (v[i2].0, v[i2].1[j2])) by {
                        if i2 > i {
                        }
                    }
                    assert forall|i2: int, j2: int|
                        0 <= i2 < i && 0 <= j2 < v[i2].1.len() implies edge_keys(out@).contains(
                        (v[i2].0, v[i2].1[j2]),
                    ) by {
                        assert(edge_keys(before).contains((v[i2].0, v[i2].1[j2])));
                        let a = choose|a: int| 0 <= a < edge_keys(before).len() && edge_keys(before)[a] == (v[i2].0, v[i2].1[j2]);
                        assert(edge_keys(out@)[a] == edge_keys(before)[a]);
                    }
                    assert forall|j2: int| 0 <= j2 < j + 1 implies edge_keys(out@).contains(
                        (v[i as int].0, v[i as int].1[j2]),
                    ) by {
                        if j2 < j {
                            assert(edge_keys(before).contains((v[i as int].0, v[i as int].1[j2])));
                            let a = choose|a: int| 0 <= a < edge_keys(before).len() && edge_keys(before)[a] == (v[i as int].0, v[i as int].1[j2]);
                            assert(edge_keys(out@)[a] == edge_keys(before)[a]);
                        } else {
                            assert(edge_keys(out@)[before.len() as int] == e);
                        }
                    }
                }
                j = j + 1;
            }
            i = i + 1;
        }
        proof {
            let keys = edge_keys(out@);
            assert(keys.to_set() =~= edge_set(v)) by {
                assert forall|e| keys.to_set().contains(e) implies edge_set(v).contains(e) by {
                    let a = choose|a: int| 0 <= a < keys.len() && keys[a] == e;
                }
                assert forall|e| edge_set(v).contains(e) implies keys.to_set().contains(e) by {
                    let (i2, j2) = choose|i2: int, j2: int|
                        0 <= i2 < v.len() && 0 <= j2 < v[i2].1.len() && v[i2].0 == e.0 && v[i2].1[j2] == e.1;
                    assert(keys.contains((v[i2].0, v[i2].1[j2])));
                }
            }
        }
        out
    }

    /// Whether some party waits for an external input.
    fn waits_externally(&self) -> (found: bool)
        ensures
            found == exists|e: ((int, Seq<char>), (int, Seq<char>))| #[trigger] self@.contains(e) && e.1.0
                == external_tag(),
    {
        let ghost v = entries_view(self.entries@);
        let n = self.entries.len();
        let mut i: usize = 0;
        while i < n
            invariant
                n == v.len(),
                v == entries_view(self.entries@),
                i <= n,
                forall|i2: int, j2: int| 0 <= i2 < i && 0 <= j2 < v[i2].1.len() ==> v[i2].1[j2].0 != external_tag(),
            decreases n - i,
        {
            let targets = &self.entries[i].1;
            let m = targets.len();
            let mut j: usize = 0;
            while j < m
                invariant
                    n == v.len(),
                    v == entries_view(self.entries@),
                    i < n,
                    m == v[i as int].1.len(),
                    targets@ == self.entries@[i as int].1@,
                    j <= m,
                    forall|i2: int, j2: int| 0 <= i2 < i && 0 <= j2 < v[i2].1.len() ==> v[i2].1[j2].0 != external_tag(),
                    forall|j2: int| 0 <= j2 < j ==> v[i as int].1[j2].0 != external_tag(),
                decreases m - j,
            {
                if targets[j].tag() == 4 {
                    proof {
                        let e = (v[i as int].0, v[i as int].1[j as int]);
                        assert(v[i as int].1[j as int] == node_key(targets@[j as int]));
                        assert(edge_set(v).contains(e));
                        assert(self@.contains(e) && e.1.0 == external_tag());
                    }
                    return true;
                }
                j = j + 1;
            }
            i = i + 1;
        }
        proof {
            assert forall|e: ((int, Seq<char>), (int, Seq<char>))| #[trigger] self@.contains(e) implies e.1.0
                != external_tag() by {
                let (i2, j2) = choose|i2: int, j2: int|
                    0 <= i2 < v.len() && 0 <= j2 < v[i2].1.len() && v[i2].0 == e.0 && v[i2].1[j2] == e.1;
            }
        }
        false
    }

    /// The sources as graph nodes `0..n` in order, each with edges to the
    /// sources among its targets, in target order.
    fn index_graph(&self) -> (adj: Vec<Vec<usize>>)
        ensures
            adj@.len() == entries_view(self.entries@).len(),
            closed_graph(graph_of(&adj)),
            forall|a: int, b: int| #[trigger] has_edge(graph_of(&adj), a, b) <==> index_edge(entries_view(self.entries@), a, b),
            graph_of(&adj) == index_adjacency(entries_view(self.entries@)),
    {
        proof {
            use_type_invariant(self);
        }
        let ghost v = entries_view(self.entries@);
        let n = self.entries.len();
        let mut adj: Vec<Vec<usize>> = Vec::new();
        let mut a: usize = 0;
        while a < n
            invariant
                n == v.len(),
                v == entries_view(self.entries@),
                entries_sorted(v),
                a <= n,
                adj@.len() == a,
                forall|x: int, k: int| 0 <= x < a && 0 <= k < adj@[x]@.len() ==> #[trigger] adj@[x]@[k] < n,
                forall|x: int, b: int| 0 <= x < a ==> (adj@[x]@.contains(b as usize) && 0 <= b < n <==> #[trigger] index_edge(v, x, b)),
                forall|x: int| 0 <= x < a ==> #[trigger] adj@[x]@ == index_row(v, x, v[x].1.len() as int),
            decreases n - a,
        {
            let targets = &self.entries[a].1;
            let m = targets.len();
            let mut row: Vec<usize> = Vec::new();
            let mut j: usize = 0;
            while j < m
                invariant
                    n == v.len(),
                    v == entries_view(self.entries@),
                    entries_sorted(v),
                    a < n,
                    m == v[a as int].1.len(),
                    targets@ == self.entries@[a as int].1@,
                    j <= m,
                    forall|k: int| 0 <= k < row@.len() ==> #[trigger] row@[k] < n,
                    forall|b: int| #![trigger v[b]] 0 <= b < n ==> (row@.contains(b as usize) <==> exists|j2: int| 0 <= j2 < j && #[trigger] v[a as int].1[j2] == v[b].0),
                    row@ == index_row(v, a as int, j as int),
                decreases m - j,
            {
                let mut k: usize = 0;
                while k < n && self.entries[k].0.compare(&targets[j]) != Precedence::Same
                    invariant
                        n == v.len(),
                        v == entries_view(self.entries@),
                        a < n,
                        j < m,
                        m == v[a as int].1.len(),
                        targets@ == self.entries@[a as int].1@,
                        k <= n,
                        forall|k2: int| 0 <= k2 < k ==> v[k2].0 != v[a as int].1[j as int],
                    decreases n - k,
                {
                    k = k + 1;
                }
                let ghost before = row@;
                if k < n {
                    row.push(k);
                }
                proof {
                    let t = v[a as int].1[j as int];
                    if k < n {
                        assert(v[k as int].0 == t);
                        let c = choose|i: int| 0 <= i < v.len() && v[i].0 == t;
                        lemma_sources_distinct(v, c, k as int);
                        assert(source_index(v, t) == Some(k as int));
                    } else {
                        assert(source_index(v, t) is None);
                    }
                    assert(row@ == index_row(v, a as int, j + 1));
                    assert forall|b: int| #![trigger v[b]] 0 <= b < n implies (row@.contains(b as usize) <==> exists|j2: int| 0 <= j2 < j + 1 && #[trigger] v[a as int].1[j2] == v[b].0) by {
                        if row@.contains(b as usize) {
                            if !before.contains(b as usize) {
                                let q = choose|q: int| 0 <= q < row@.len() && row@[q] == b as usize;
                                assert(q == before.len());
                                assert(v[a as int].1[j as int] == v[b].0);
                            } else {
                                let j2 = choose|j2: int| 0 <= j2 < j && #[trigger] v[a as int].1[j2] == v[b].0;
                                assert(0 <= j2 < j + 1 && v[a as int].1[j2] == v[b].0);
                            }
                        }
                        if exists|j2: int| 0 <= j2 < j + 1 && #[trigger] v[a as int].1[j2] == v[b].0 {
                            let j2 = choose|j2: int| 0 <= j2 < j + 1 && #[trigger] v[a as int].1[j2] == v[b].0;
                            if j2 < j {
                                assert(before.contains(b as usize));
                                let q = choose|q: int| 0 <= q < before.len() && before[q] == b as usize;
                                assert(row@[q] == b as usize);
                            } else {
                                assert(k < n) by {
                                    if k == n {
                                        assert(v[b].0 != v[a as int].1[j as int]);
                                    }
                                }
                                assert(v[k as int].0 == v[b].0);
                                lemma_sources_distinct(v, k as int, b);
                                assert(row@[before.len() as int] == b as usize);
                            }
                        }
                    }
                }
                j = j + 1;
            }
            let ghost prior = adj@;
            adj.push(row);
            proof {
                assert(row@ == index_row(v, a as int, m as int));
                assert forall|x: int| 0 <= x < a + 1 implies #[trigger] adj@[x]@ == index_row(v, x, v[x].1.len() as int) by {
                    if x < a {
                        assert(adj@[x] == prior[x]);
                    }
                }
                assert forall|x: int, b: int| 0 <= x < a + 1 implies (adj@[x]@.contains(b as usize) && 0 <= b < n <==> #[trigger] index_edge(v, x, b)) by {
                    if x == a && 0 <= b < n {
                        if index_edge(v, x, b) {
                            let j2 = choose|j2: int| 0 <= j2 < v[x].1.len() && v[x].1[j2] == v[b].0;
                            assert(v[a as int].1[j2] == v[b].0);
                        }
                    }
                }
            }
            a = a + 1;
        }
        proof {
            let g = graph_of(&adj);
            assert(g =~= index_adjacency(v));
            assert forall|x: int, b: int| #[trigger] has_edge(g, x, b) <==> index_edge(v, x, b) by {
                if has_edge(g, x, b) {
                    let k = choose|k: int| 0 <= k < g[x].len() && g[x][k] == b;
                    assert(adj@[x]@[k] < n);
                    assert(adj@[x]@.contains(b as usize));
                }
                if index_edge(v, x, b) {
                    assert(adj@[x]@.contains(b as usize));
                    let k = choose|k: int| 0 <= k < adj@[x]@.len() && adj@[x]@[k] == b as usize;
                    assert(g[x][k] == b);
                }
            }
        }
        adj
    }

    /// The cycle the search meets first (see `cycles::first_cycle`), as the
    /// parties it passes: the search starts from each waiting party in node
    /// order and follows each party's waits in node order.
    pub closed spec fn searched_cycle(&self) -> Seq<(int, Seq<char>)> {
        let v = entries_view(self.entries@);
        first_cycle(index_adjacency(v)).map_values(|i: usize| v[i as int].0)
    }

    /// The first wait cycle met by a depth-first search that starts from
    /// each waiting party in node order and follows waits in node order: the
    /// path from the repeated party back to itself. Empty exactly when no
    /// party waits, through others, for itself. No party repeats before the
    /// cycle closes.
    pub fn find_cycle(&self) -> (cycle: Vec<WaitNode>)
        ensures
            cycle@.len() > 0 ==> is_wait_cycle(self@, cycle@.map_values(|n: WaitNode| node_key(n))),
            cycle@.len() > 0 ==> cycle@.map_values(|n: WaitNode| node_key(n)).drop_last().no_duplicates(),
            cycle@.len() == 0 <==> forall|c: Seq<(int, Seq<char>)>| !#[trigger] is_wait_cycle(self@, c),
            cycle@.map_values(|n: WaitNode| node_key(n)) == self.searched_cycle(),
    {
        proof {
            use_type_invariant(self);
        }
        let ghost v = entries_view(self.entries@);
        let entry_count = self.entries.len();
        let adj = self.index_graph();
        let ghost g = graph_of(&adj);
        let indices = find_cycle(&adj);
        let mut cycle: Vec<WaitNode> = Vec::new();
        let len = indices.len();
        let mut m: usize = 0;
        while m < len
            invariant
                len == indices@.len(),
                m <= len,
                adj@.len() == v.len(),
                v == entries_view(self.entries@),
                indices@.len() > 0 ==> is_cycle(g, indices@),
                g == graph_of(&adj),
                closed_graph(g),
                cycle@.len() == m,
                forall|q: int| 0 <= q < m ==> node_key(#[trigger] cycle@[q]) == v[indices@[q] as int].0,
            decreases len - m,
        {
            let k = indices[m];
            proof {
                if m + 1 < len {
                    assert(has_edge(g, indices@[m as int] as int, indices@[m + 1] as int));
                } else {
                    let i = m - 1;
                    assert(has_edge(g, indices@[i] as int, indices@[i + 1] as int));
                }
            }
            cycle.push(self.entries[k].0.copied());
            m = m + 1;
        }
        proof {
            let keys = cycle@.map_values(|n: WaitNode| node_key(n));
            assert(g == index_adjacency(v));
            assert(keys =~= first_cycle(index_adjacency(v)).map_values(|i: usize| v[i as int].0));
            if len > 0 {
                assert forall|i: int| 0 <= i < keys.len() - 1 implies #[trigger] self@.contains((keys[i], keys[i + 1])) by {
                    assert(has_edge(g, indices@[i] as int, indices@[i + 1] as int));
                    assert(index_edge(v, indices@[i] as int, indices@[i + 1] as int));
                    let j = choose|j: int| 0 <= j < v[indices@[i] as int].1.len() && v[indices@[i] as int].1[j] == v[indices@[i + 1] as int].0;
                    assert(edge_set(v).contains((keys[i], keys[i + 1])));
                }
                assert(is_wait_cycle(self@, keys));
                assert forall|a: int, b: int| 0 <= a < b < keys.len() - 1 implies keys.drop_last()[a]
                    != keys.drop_last()[b] by {
                    assert(indices@.drop_last()[a] != indices@.drop_last()[b]);
                    assert(has_edge(g, indices@[a] as int, indices@[a + 1] as int));
                    assert(has_edge(g, indices@[b] as int, indices@[b + 1] as int));
                    if keys[a] == keys[b] {
                        lemma_sources_distinct(v, indices@[a] as int, indices@[b] as int);
                    }
                }
            } else {
                assert(acyclic(g));
                assert(v.len() == entry_count);
                assert forall|c: Seq<(int, Seq<char>)>| !#[trigger] is_wait_cycle(self@, c) by {
                    if is_wait_cycle(self@, c) {
                        lemma_wait_cycle_to_index_cycle(v, g, c);
                    }
                }
            }
        }
        cycle
    }

    /// Classifies a run that stopped: converged when the run completed;
    /// otherwise waiting for a timer when one is pending; otherwise blocked
    /// externally when some party waits for an external input; otherwise
    /// deadlocked on the first wait cycle found (see `find_cycle`), or
    /// incomplete when there is none. Every edge is reported, ascending.
    pub fn classify(&self, complete: bool, has_timer: bool) -> (report: StallReport)
        ensures
            edges_ascending(edge_keys(report.edges@)),
            edge_keys(report.edges@).to_set() == self@,
            complete ==> report.classification == Quiescence::Converged && report.cycle@.len() == 0,
            !complete && has_timer ==> report.classification == Quiescence::WaitingForTimer && report.cycle@.len() == 0,
            !complete && !has_timer && (exists|e: ((int, Seq<char>), (int, Seq<char>))| #[trigger] self@.contains(e) && e.1.0
                == external_tag()) ==> report.classification == Quiescence::ExternallyBlocked && report.cycle@.len() == 0,
            !complete && !has_timer && !(exists|e: ((int, Seq<char>), (int, Seq<char>))| #[trigger] self@.contains(e)
                && e.1.0 == external_tag()) ==> {
                &&& report.cycle@.len() > 0 ==> report.classification == Quiescence::Deadlocked && is_wait_cycle(
                    self@,
                    report.cycle@.map_values(|n: WaitNode| node_key(n)),
                ) && report.cycle@.map_values(|n: WaitNode| node_key(n)).drop_last().no_duplicates()
                &&& report.cycle@.map_values(|n: WaitNode| node_key(n)) == self.searched_cycle()
                &&& report.cycle@.len() == 0 <==> report.classification == Quiescence::Incomplete
                &&& report.cycle@.len() == 0 <==> forall|c: Seq<(int, Seq<char>)>| !#[trigger] is_wait_cycle(self@, c)
            },
    {
        let edges = self.edge_list();
        if complete {
            return StallReport { classification: Quiescence::Converged, cycle: Vec::new(), edges };
        }
        if has_timer {
            return StallReport { classification: Quiescence::WaitingForTimer, cycle: Vec::new(), edges };
        }
        if self.waits_externally() {
            return StallReport { classification: Quiescence::ExternallyBlocked, cycle: Vec::new(), edges };
        }
        let cycle = self.find_cycle();
        let classification = if cycle.len() == 0 {
            Quiescence::Incomplete
        } else {
            Quiescence::Deadlocked
        };
        StallReport { classification, cycle, edges }
    }
}

proof fn lemma_wait_cycle_to_index_cycle(v: Adjacency, g: Seq<Seq<usize>>, c: Seq<(int, Seq<char>)>)
    requires
        entries_sorted(v),
        g.len() == v.len(),
        v.len() <= usize::MAX,
        forall|a: int, b: int| #[trigger] has_edge(g, a, b) <==> index_edge(v, a, b),
        is_wait_cycle(edge_set(v), c),
    ensures
        !acyclic(g),
{
    let n = v.len();
    assert forall|m: int| #![trigger c[m]] 0 <= m < c.len() implies exists|k: int| 0 <= k < n && #[trigger] v[k].0 == c[m] by {
        let m2 = if m == c.len() - 1 { 0 } else { m };
        assert(edge_set(v).contains((c[m2], c[m2 + 1])));
        let (i, j) = choose|i: int, j: int|
            0 <= i < v.len() && 0 <= j < v[i].1.len() && v[i].0 == c[m2] && v[i].1[j] == c[m2 + 1];
        assert(v[i].0 == c[m]);
    }
    let idx = Seq::new(c.len(), |m: int| (choose|k: int| 0 <= k < n && #[trigger] v[k].0 == c[m]) as usize);
    assert forall|m: int| 0 <= m < c.len() implies 0 <= idx[m] < n && #[trigger] v[idx[m] as int].0 == c[m] by {
        let k = choose|k: int| 0 <= k < n && #[trigger] v[k].0 == c[m];
    }
    assert forall|m: int| 0 <= m < idx.len() - 1 implies #[trigger] has_edge(g, idx[m] as int, idx[m + 1] as int) by {
        assert(edge_set(v).contains((c[m], c[m + 1])));
        let (i, j) = choose|i: int, j: int|
            0 <= i < v.len() && 0 <= j < v[i].1.len() && v[i].0 == c[m] && v[i].1[j] == c[m + 1];
        assert(v[idx[m] as int].0 == c[m]);
        lemma_sources_distinct(v, i, idx[m] as int);
        assert(v[idx[m + 1] as int].0 == c[m + 1]);
        assert(index_edge(v, idx[m] as int, idx[m + 1] as int));
    }
    assert(idx[0] == idx[idx.len() - 1]) by {
        assert(v[idx[0] as int].0 == c[0]);
        assert(v[idx[idx.len() - 1] as int].0 == c[c.len() - 1]);
        lemma_sources_distinct(v, idx[0] as int, idx[idx.len() - 1] as int);
    }
    assert(is_cycle(g, idx));
}

} // verus!
