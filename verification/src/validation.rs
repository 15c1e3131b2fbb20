//! Admission checks of the orchestrator: a graph whose components must be
//! registered, served by a known connector, and free of self, missing and
//! cyclic dependencies; and a slice report that must answer for exactly the
//! components of its slice before its outputs are published.

use vstd::prelude::*;

use crate::cycles::{acyclic, closed_graph, find_cycle, graph_of, has_edge, is_cycle};
use crate::textset::TextSet;

verus! {

/// How grave a diagnostic is.
#[derive(Clone, Copy, Debug, PartialEq, Eq, Structural)]
pub enum DiagnosticSeverity {
    Error,
    Warning,
}

/// A finding about a graph or a report, with the component it concerns.
#[derive(Clone, Debug, PartialEq, Eq)]
pub struct Diagnostic {
    pub severity: DiagnosticSeverity,
    pub code: String,
    pub component: Option<u128>,
}

/// A diagnostic as plain values: its code and component; every diagnostic
/// these checks raise is an error.
pub open spec fn diagnostic_view(d: Diagnostic) -> (Seq<char>, Option<u128>) {
    (d.code@, d.component)
}

/// Diagnostics as plain values.
pub open spec fn diagnostics_view(d: Seq<Diagnostic>) -> Seq<(Seq<char>, Option<u128>)> {
    d.map_values(|x: Diagnostic| diagnostic_view(x))
}

/// Every diagnostic is an error.
pub open spec fn all_errors(d: Seq<Diagnostic>) -> bool {
    forall|i: int| 0 <= i < d.len() ==> (#[trigger] d[i]).severity == DiagnosticSeverity::Error
}

/// A registered component: the connector that runs it and the components
/// it depends on.
#[derive(Clone, Debug, PartialEq, Eq)]
pub struct RegisteredComponent {
    pub id: u128,
    pub connector: String,
    pub depends_on: Vec<u128>,
}

/// Why a graph was refused: it is wrong in itself, or it needs what is not
/// there yet.
#[derive(Clone, Debug, PartialEq, Eq)]
pub enum GraphValidationError {
    Invalid(Vec<Diagnostic>),
    FailedPrecondition(Vec<Diagnostic>),
}

/// The registration of component `id`: the first in the catalog.
pub open spec fn registration(catalog: Seq<RegisteredComponent>, id: u128) -> Option<RegisteredComponent>
    decreases catalog.len(),
{
    if catalog.len() == 0 {
        None
    } else if catalog[0].id == id {
        Some(catalog[0])
    } else {
        registration(catalog.drop_first(), id)
    }
}

/// One diagnostic with a component.
pub open spec fn about(code: Seq<char>, c: u128) -> Seq<(Seq<char>, Option<u128>)> {
    seq![(code, Some(c))]
}

/// The self dependencies of `c` among `deps`, one diagnostic each.
pub open spec fn self_dependencies(deps: Seq<u128>, c: u128) -> Seq<(Seq<char>, Option<u128>)>
    decreases deps.len(),
{
    if deps.len() == 0 {
        Seq::empty()
    } else {
        self_dependencies(deps.drop_last(), c) + if deps.last() == c {
            about("component.depends_on.self"@, c)
        } else {
            Seq::empty()
        }
    }
}

/// The dependencies of `c` outside the graph, one diagnostic each.
pub open spec fn missing_dependencies(deps: Seq<u128>, c: u128, graph: Seq<u128>) -> Seq<(Seq<char>, Option<u128>)>
    decreases deps.len(),
{
    if deps.len() == 0 {
        Seq::empty()
    } else {
        missing_dependencies(deps.drop_last(), c, graph) + if deps.last() != c && !graph.contains(deps.last()) {
            about("component.depends_on.missing"@, c)
        } else {
            Seq::empty()
        }
    }
}

/// What makes component `c` invalid.
pub open spec fn component_invalid(catalog: Seq<RegisteredComponent>, c: u128) -> Seq<(Seq<char>, Option<u128>)> {
    match registration(catalog, c) {
        None => Seq::empty(),
        Some(r) => self_dependencies(r.depends_on@, c),
    }
}

/// What component `c` needs that is not there.
pub open spec fn component_preconditions(
    catalog: Seq<RegisteredComponent>,
    connectors: Set<Seq<char>>,
    graph: Seq<u128>,
    c: u128,
) -> Seq<(Seq<char>, Option<u128>)> {
    match registration(catalog, c) {
        None => about("component.spec.unregistered"@, c),
        Some(r) => (if connectors.contains(r.connector@) {
            Seq::empty()
        } else {
            about("component.connector.unregistered"@, c)
        }) + missing_dependencies(r.depends_on@, c, graph),
    }
}

/// The invalidity diagnostics of the first `k` components, in order.
pub open spec fn invalid_upto(catalog: Seq<RegisteredComponent>, graph: Seq<u128>, k: int) -> Seq<(Seq<char>, Option<u128>)>
    decreases k,
{
    if k <= 0 {
        Seq::empty()
    } else {
        invalid_upto(catalog, graph, k - 1) + component_invalid(catalog, graph[k - 1])
    }
}

/// The precondition diagnostics of the first `k` components, in order.
pub open spec fn preconditions_upto(
    catalog: Seq<RegisteredComponent>,
    connectors: Set<Seq<char>>,
    graph: Seq<u128>,
    k: int,
) -> Seq<(Seq<char>, Option<u128>)>
    decreases k,
{
    if k <= 0 {
        Seq::empty()
    } else {
        preconditions_upto(catalog, connectors, graph, k - 1) + component_preconditions(catalog, connectors, graph, graph[k - 1])
    }
}

/// `a` depends on `b`, both in the graph and `a` registered.
pub open spec fn depends(catalog: Seq<RegisteredComponent>, graph: Seq<u128>, a: u128, b: u128) -> bool {
    &&& graph.contains(a)
    &&& graph.contains(b)
    &&& registration(catalog, a) matches Some(r) && r.depends_on@.contains(b)
}

/// `c` walks along dependencies and comes back to where it started.
pub open spec fn is_dependency_cycle(catalog: Seq<RegisteredComponent>, graph: Seq<u128>, c: Seq<u128>) -> bool {
    &&& c.len() >= 2
    &&& c[0] == c[c.len() - 1]
    &&& forall|i: int| 0 <= i < c.len() - 1 ==> #[trigger] depends(catalog, graph, c[i], c[i + 1])
}

/// The components of the graph depend on each other in a circle.
pub open spec fn dependency_cycle(catalog: Seq<RegisteredComponent>, graph: Seq<u128>) -> bool {
    exists|c: Seq<u128>| #[trigger] is_dependency_cycle(catalog, graph, c)
}

/// All the preconditions a graph misses: each component's, then a cycle.
pub open spec fn graph_preconditions(
    catalog: Seq<RegisteredComponent>,
    connectors: Set<Seq<char>>,
    graph: Seq<u128>,
) -> Seq<(Seq<char>, Option<u128>)> {
    preconditions_upto(catalog, connectors, graph, graph.len() as int) + if dependency_cycle(catalog, graph) {
        seq![("graph.dependencies.cycle"@, None::<u128>)]
    } else {
        Seq::empty()
    }
}

fn find_registration(catalog: &[RegisteredComponent], id: u128) -> (found: Option<usize>)
    ensures
        found matches Some(i) ==> i < catalog@.len() && registration(catalog@, id) == Some(catalog@[i as int]),
        found is None ==> registration(catalog@, id) is None,
{
    let n = catalog.len();
    let mut i: usize = 0;
    assert(catalog@.skip(0) =~= catalog@);
    while i < n
        invariant
            n == catalog@.len(),
            i <= n,
            registration(catalog@, id) == registration(catalog@.skip(i as int), id),
        decreases n - i,
    {
        assert(catalog@.skip(i as int)[0] == catalog@[i as int]);
        if catalog[i].id == id {
            return Some(i);
        }
        assert(catalog@.skip(i as int).drop_first() =~= catalog@.skip(i + 1));
        i = i + 1;
    }
    None
}

fn index_in(graph: &[u128], id: u128) -> (at: Option<usize>)
    ensures
        at matches Some(i) ==> i < graph@.len() && graph@[i as int] == id && forall|j: int| 0 <= j < i ==> graph@[j] != id,
        at is None ==> !graph@.contains(id),
{
    let n = graph.len();
    let mut i: usize = 0;
    while i < n
        invariant
            n == graph@.len(),
            i <= n,
            forall|j: int| 0 <= j < i ==> graph@[j] != id,
        decreases n - i,
    {
        if graph[i] == id {
            return Some(i);
        }
        i = i + 1;
    }
    None
}

fn error_about(code: &str, component: Option<u128>) -> (d: Diagnostic)
    ensures
        d.severity == DiagnosticSeverity::Error,
        d.code@ == code@,
        d.component == component,
{
    Diagnostic { severity: DiagnosticSeverity::Error, code: code.to_string(), component }
}

fn push_error(list: &mut Vec<Diagnostic>, code: &str, component: Option<u128>)
    ensures
        diagnostics_view(final(list)@) == diagnostics_view(old(list)@).push((code@, component)),
        all_errors(old(list)@) ==> all_errors(final(list)@),
{
    list.push(error_about(code, component));
    assert(diagnostics_view(list@) =~= diagnostics_view(old(list)@).push((code@, component)));
}

/// The index of the first occurrence of `id` in `graph`.
pub open spec fn first_index(graph: Seq<u128>, id: u128) -> int {
    choose|i: int| 0 <= i < graph.len() && graph[i] == id && forall|j: int| 0 <= j < i ==> graph[j] != id
}

/// The dependency graph over component indices: an edge from each
/// component to the first index of each dependency in the graph.
pub open spec fn dependency_edges(catalog: Seq<RegisteredComponent>, graph: Seq<u128>, adj: Seq<Seq<usize>>) -> bool {
    &&& adj.len() == graph.len()
    &&& forall|u: int, v: int| 0 <= u < graph.len() ==> (#[trigger] has_edge(adj, u, v) <==> (0 <= v < graph.len() && v
        == first_index(graph, graph[v]) && depends(catalog, graph, graph[u], graph[v])))
}

proof fn lemma_first_index(graph: Seq<u128>, id: u128)
    requires
        graph.contains(id),
    ensures
        0 <= first_index(graph, id) < graph.len(),
        graph[first_index(graph, id)] == id,
        forall|j: int| 0 <= j < first_index(graph, id) ==> graph[j] != id,
{
    let k = choose|k: int| 0 <= k < graph.len() && graph[k] == id;
    lemma_first_exists(graph, id, k);
}

proof fn lemma_first_exists(graph: Seq<u128>, id: u128, k: int)
    requires
        0 <= k < graph.len(),
        graph[k] == id,
    ensures
        exists|i: int| 0 <= i < graph.len() && graph[i] == id && forall|j: int| 0 <= j < i ==> graph[j] != id,
    decreases k,
{
    if exists|j: int| 0 <= j < k && graph[j] == id {
        let j = choose|j: int| 0 <= j < k && graph[j] == id;
        lemma_first_exists(graph, id, j);
    }
}

proof fn lemma_cycle_correspondence(catalog: Seq<RegisteredComponent>, graph: Seq<u128>, adj: Seq<Seq<usize>>)
    requires
        dependency_edges(catalog, graph, adj),
        closed_graph(adj),
        graph.len() <= usize::MAX,
    ensures
        acyclic(adj) <==> !dependency_cycle(catalog, graph),
{
    if !acyclic(adj) {
        let c = choose|c: Seq<usize>| #[trigger] is_cycle(adj, c);
        let d = Seq::new(c.len(), |i: int| graph[c[i] as int]);
        assert forall|i: int| 0 <= i < d.len() - 1 implies #[trigger] depends(catalog, graph, d[i], d[i + 1]) by {
            assert(has_edge(adj, c[i] as int, c[i + 1] as int));
            assert(0 <= c[i] < graph.len()) by {
                let j = choose|j: int| 0 <= j < adj[c[i] as int].len() && adj[c[i] as int][j] == c[i + 1];
            }
        }
        assert(is_dependency_cycle(catalog, graph, d));
    }
    if dependency_cycle(catalog, graph) {
        let d = choose|d: Seq<u128>| #[trigger] is_dependency_cycle(catalog, graph, d);
        assert forall|i: int| 0 <= i < d.len() implies graph.contains(#[trigger] d[i]) by {
            if i < d.len() - 1 {
                assert(depends(catalog, graph, d[i], d[i + 1]));
            } else {
                let z: int = 0;
                assert(depends(catalog, graph, d[z], d[z + 1]));
            }
        }
        let c = Seq::new(d.len(), |i: int| first_index(graph, d[i]) as usize);
        assert forall|i: int| 0 <= i < c.len() - 1 implies #[trigger] has_edge(adj, c[i] as int, c[i + 1] as int) by {
            lemma_first_index(graph, d[i]);
            lemma_first_index(graph, d[i + 1]);
            assert(depends(catalog, graph, d[i], d[i + 1]));
            let u = c[i] as int;
            let v = c[i + 1] as int;
            assert(graph[u] == d[i]);
            assert(graph[v] == d[i + 1]);
            assert(v == first_index(graph, graph[v]));
        }
        assert(is_cycle(adj, c));
    }
}

/// `out` lists, for the dependencies `deps`, the first index in `graph`
/// of each that the graph holds.
pub open spec fn targets_of(out: Seq<usize>, graph: Seq<u128>, deps: Seq<u128>) -> bool {
    &&& forall|j: int| 0 <= j < out.len() ==> #[trigger] out[j] < graph.len()
    &&& forall|v: int| (exists|j: int| 0 <= j < out.len() && out[j] == v) <==> (0 <= v < graph.len() && v == first_index(graph, graph[v])
        && deps.contains(graph[v]))
}

fn dependency_targets(graph: &[u128], deps: &Vec<u128>) -> (out: Vec<usize>)
    ensures
        targets_of(out@, graph@, deps@),
{
    let n = graph.len();
    let m = deps.len();
    let mut out: Vec<usize> = Vec::new();
    let mut k: usize = 0;
    while k < m
        invariant
            n == graph@.len(),
            m == deps@.len(),
            k <= m,
            targets_of(out@, graph@, deps@.take(k as int)),
        decreases m - k,
    {
        let dep = deps[k];
        let ghost before = out@;
        let ghost t = deps@.take(k + 1);
        assert(t =~= deps@.take(k as int).push(dep));
        match index_in(graph, dep) {
            Some(v) => {
                proof {
                    lemma_first_index(graph@, dep);
                    let f = first_index(graph@, dep);
                    if f < v {
                    } else if f > v {
                    }
                }
                out.push(v);
            },
            None => {},
        }
        proof {
            assert forall|j: int| 0 <= j < out@.len() implies #[trigger] out@[j] < n by {
                if j < before.len() {
                    assert(out@[j] == before[j]);
                }
            }
            assert forall|v: int| (exists|j: int| 0 <= j < out@.len() && out@[j] == v) <==> (0 <= v < n && v == first_index(
                graph@,
                graph@[v],
            ) && t.contains(graph@[v])) by {
                if exists|j: int| 0 <= j < out@.len() && out@[j] == v {
                    let j = choose|j: int| 0 <= j < out@.len() && out@[j] == v;
                    if j < before.len() {
                        assert(before[j] == v);
                        let s = choose|s: int| 0 <= s < deps@.take(k as int).len() && #[trigger] deps@.take(k as int)[s] == graph@[v];
                        assert(t[s] == graph@[v]);
                    } else {
                        assert(t[k as int] == dep);
                    }
                }
                if 0 <= v < n && v == first_index(graph@, graph@[v]) && t.contains(graph@[v]) {
                    let s = choose|s: int| 0 <= s < t.len() && #[trigger] t[s] == graph@[v];
                    if s < k {
                        assert(deps@.take(k as int)[s] == graph@[v]);
                        let j = choose|j: int| 0 <= j < before.len() && before[j] == v;
                        assert(out@[j] == v);
                    } else {
                        assert(graph@[v] == dep);
                        assert(graph@.contains(dep));
                        lemma_first_index(graph@, dep);
                        assert(out@[out@.len() - 1] == v);
                    }
                }
            }
        }
        k = k + 1;
    }
    assert(deps@.take(m as int) =~= deps@);
    out
}

/// The dependencies of `id`, none when it is not registered.
pub open spec fn registered_deps(catalog: Seq<RegisteredComponent>, id: u128) -> Seq<u128> {
    match registration(catalog, id) {
        Some(r) => r.depends_on@,
        None => Seq::empty(),
    }
}

fn dependency_graph(catalog: &[RegisteredComponent], graph: &[u128]) -> (adj: Vec<Vec<usize>>)
    ensures
        dependency_edges(catalog@, graph@, graph_of(&adj)),
        closed_graph(graph_of(&adj)),
{
    let n = graph.len();
    let mut adj: Vec<Vec<usize>> = Vec::new();
    let mut u: usize = 0;
    while u < n
        invariant
            n == graph@.len(),
            u <= n,
            adj@.len() == u,
            forall|a: int| 0 <= a < u ==> targets_of(#[trigger] adj@[a]@, graph@, registered_deps(catalog@, graph@[a])),
        decreases n - u,
    {
        let out = match find_registration(catalog, graph[u]) {
            Some(r) => dependency_targets(graph, &catalog[r].depends_on),
            None => {
                let empty: Vec<u128> = Vec::new();
                assert(empty@ =~= registered_deps(catalog@, graph@[u as int]));
                dependency_targets(graph, &empty)
            },
        };
        let ghost before = adj@;
        adj.push(out);
        proof {
            assert forall|a: int| 0 <= a < u + 1 implies targets_of(#[trigger] adj@[a]@, graph@, registered_deps(catalog@, graph@[a])) by {
                if a < u {
                    assert(adj@[a] == before[a]);
                }
            }
        }
        u = u + 1;
    }
    proof {
        let g = graph_of(&adj);
        assert forall|a: int, j: int| 0 <= a < g.len() && 0 <= j < g[a].len() implies #[trigger] g[a][j] < g.len() by {
            assert(g[a] == adj@[a]@);
            assert(targets_of(adj@[a]@, graph@, registered_deps(catalog@, graph@[a])));
        }
        assert forall|a: int, v: int| 0 <= a < graph@.len() implies (#[trigger] has_edge(g, a, v) <==> (0 <= v < graph@.len() && v
            == first_index(graph@, graph@[v]) && depends(catalog@, graph@, graph@[a], graph@[v]))) by {
            assert(g[a] == adj@[a]@);
            let deps = registered_deps(catalog@, graph@[a]);
            assert(targets_of(adj@[a]@, graph@, deps));
            assert(graph@.contains(graph@[a]));
            if 0 <= v < graph@.len() {
                assert(graph@.contains(graph@[v]));
            }
        }
    }
    adj
}

/// Checks a graph: self dependencies make it invalid; unregistered
/// components, unknown connectors, dependencies outside the graph and a
/// dependency cycle are unmet preconditions. Invalidity wins.
#[verifier::rlimit(40)]
pub fn validate_graph(graph: &[u128], catalog: &[RegisteredComponent], connectors: &TextSet) -> (r: Result<(), GraphValidationError>)
    ensures
        invalid_upto(catalog@, graph@, graph@.len() as int).len() > 0 ==> (r matches Err(GraphValidationError::Invalid(d))
            && diagnostics_view(d@) == invalid_upto(catalog@, graph@, graph@.len() as int) && all_errors(d@)),
        invalid_upto(catalog@, graph@, graph@.len() as int).len() == 0 && graph_preconditions(catalog@, connectors@, graph@).len() > 0
            ==> (r matches Err(GraphValidationError::FailedPrecondition(d)) && diagnostics_view(d@) == graph_preconditions(
            catalog@,
            connectors@,
            graph@,
        ) && all_errors(d@)),
        invalid_upto(catalog@, graph@, graph@.len() as int).len() == 0 && graph_preconditions(catalog@, connectors@, graph@).len() == 0
            ==> r is Ok,
{
    let mut invalid: Vec<Diagnostic> = Vec::new();
    let mut preconditions: Vec<Diagnostic> = Vec::new();
    let n = graph.len();
    let mut i: usize = 0;
    assert(diagnostics_view(invalid@) =~= Seq::<(Seq<char>, Option<u128>)>::empty());
    while i < n
        invariant
            n == graph@.len(),
            i <= n,
            diagnostics_view(invalid@) == invalid_upto(catalog@, graph@, i as int),
            diagnostics_view(preconditions@) == preconditions_upto(catalog@, connectors@, graph@, i as int),
            all_errors(invalid@),
            all_errors(preconditions@),
        decreases n - i,
    {
        let c = graph[i];
        let ghost inv0 = diagnostics_view(invalid@);
        let ghost pre0 = diagnostics_view(preconditions@);
        match find_registration(catalog, c) {
            None => {
                push_error(&mut preconditions, "component.spec.unregistered", Some(c));
                assert(component_invalid(catalog@, c) =~= Seq::<(Seq<char>, Option<u128>)>::empty());
                assert(invalid_upto(catalog@, graph@, i + 1) =~= inv0);
            },
            Some(r) => {
                let reg = &catalog[r];
                let ghost conn0 = diagnostics_view(preconditions@);
                if !connectors.contains(reg.connector.as_str()) {
                    push_error(&mut preconditions, "component.connector.unregistered", Some(c));
                }
                let ghost conn1 = diagnostics_view(preconditions@);
                assert(conn1 == pre0 + (if connectors@.contains(reg.connector@) {
                    Seq::<(Seq<char>, Option<u128>)>::empty()
                } else {
                    about("component.connector.unregistered"@, c)
                }));
                let deps = &reg.depends_on;
                let m = deps.len();
                let mut k: usize = 0;
                assert(deps@.take(0) =~= Seq::<u128>::empty());
                assert(inv0 + self_dependencies(deps@.take(0), c) =~= inv0);
                assert(conn1 + missing_dependencies(deps@.take(0), c, graph@) =~= conn1);
                while k < m
                    invariant
                        m == deps@.len(),
                        k <= m,
                        diagnostics_view(invalid@) == inv0 + self_dependencies(deps@.take(k as int), c),
                        diagnostics_view(preconditions@) == conn1 + missing_dependencies(deps@.take(k as int), c, graph@),
                        all_errors(invalid@),
                        all_errors(preconditions@),
                    decreases m - k,
                {
                    let dep = deps[k];
                    let ghost t = deps@.take(k + 1);
                    assert(t.drop_last() =~= deps@.take(k as int));
                    assert(t.last() == dep);
                    if dep == c {
                        push_error(&mut invalid, "component.depends_on.self", Some(c));
                        assert(diagnostics_view(invalid@) =~= inv0 + self_dependencies(t, c));
                        assert(diagnostics_view(preconditions@) =~= conn1 + missing_dependencies(t, c, graph@));
                    } else if index_in(graph, dep).is_none() {
                        push_error(&mut preconditions, "component.depends_on.missing", Some(c));
                        assert(diagnostics_view(invalid@) =~= inv0 + self_dependencies(t, c));
                        assert(diagnostics_view(preconditions@) =~= conn1 + missing_dependencies(t, c, graph@));
                    } else {
                        assert(diagnostics_view(invalid@) =~= inv0 + self_dependencies(t, c));
                        assert(diagnostics_view(preconditions@) =~= conn1 + missing_dependencies(t, c, graph@));
                    }
                    k = k + 1;
                }
                assert(deps@.take(m as int) =~= deps@);
                assert(invalid_upto(catalog@, graph@, i + 1) =~= inv0 + self_dependencies(deps@, c));
                assert(preconditions_upto(catalog@, connectors@, graph@, i + 1) =~= diagnostics_view(preconditions@));
            },
        }
        i = i + 1;
    }
    let adj = dependency_graph(catalog, graph);
    let cycle = find_cycle(&adj);
    proof {
        lemma_cycle_correspondence(catalog@, graph@, graph_of(&adj));
    }
    if cycle.len() > 0 {
        push_error(&mut preconditions, "graph.dependencies.cycle", None);
    }
    assert(diagnostics_view(preconditions@) =~= graph_preconditions(catalog@, connectors@, graph@));
    if invalid.len() > 0 {
        return Err(GraphValidationError::Invalid(invalid));
    }
    if preconditions.len() > 0 {
        return Err(GraphValidationError::FailedPrecondition(preconditions));
    }
    Ok(())
}


// === Slice reports ===

/// The components of one graph generation that one connector runs.
#[derive(Clone, Debug, PartialEq, Eq)]
pub struct GraphSlice {
    pub graph_id: u128,
    pub generation: u64,
    pub connector: String,
    pub components: Vec<u128>,
    pub sequence: u64,
}

/// How one component of a slice ended.
#[derive(Clone, Debug, PartialEq, Eq)]
pub struct ComponentDisposition {
    pub component: u128,
    pub ready: bool,
}

/// An output a component published.
#[derive(Clone, Debug, PartialEq, Eq)]
pub struct SliceOutput {
    pub component: u128,
    pub name: String,
    pub value: String,
}

/// What a connector reports for a slice.
#[derive(Clone, Debug, PartialEq, Eq)]
pub struct SliceReport {
    pub graph_id: u128,
    pub generation: u64,
    pub connector: String,
    pub sequence: u64,
    pub dispositions: Vec<ComponentDisposition>,
    pub outputs: Vec<SliceOutput>,
    pub diagnostics: Vec<Diagnostic>,
}

/// Why a report was refused.
#[derive(Clone, Debug, PartialEq, Eq)]
pub enum ReportValidationError {
    Invalid(Vec<Diagnostic>),
    FailedPrecondition(Vec<Diagnostic>),
}

/// The report is about this slice.
pub open spec fn same_identity(r: SliceReport, s: GraphSlice) -> bool {
    r.graph_id == s.graph_id && r.generation == s.generation && r.connector@ == s.connector@ && r.sequence == s.sequence
}

/// The components a slice owns.
pub open spec fn owned(s: GraphSlice) -> Set<u128> {
    s.components@.to_set()
}

/// The components the report gives a disposition for.
pub open spec fn disposed(r: SliceReport) -> Set<u128> {
    Set::new(|c: u128| exists|i: int| 0 <= i < r.dispositions@.len() && #[trigger] r.dispositions@[i].component == c)
}

/// The components the report publishes outputs for.
pub open spec fn published(r: SliceReport) -> Set<u128> {
    Set::new(|c: u128| exists|i: int| 0 <= i < r.outputs@.len() && #[trigger] r.outputs@[i].component == c)
}

/// The report may publish: the slice owns components, all are ready, and
/// no diagnostic is an error.
pub open spec fn publishable(r: SliceReport, s: GraphSlice) -> bool {
    &&& s.components@.len() > 0
    &&& forall|i: int| 0 <= i < r.dispositions@.len() ==> (#[trigger] r.dispositions@[i]).ready
    &&& forall|i: int| 0 <= i < r.diagnostics@.len() ==> (#[trigger] r.diagnostics@[i]).severity != DiagnosticSeverity::Error
}

/// The one diagnostic a refusal carries.
pub open spec fn refused_with(d: Seq<Diagnostic>, code: Seq<char>) -> bool {
    diagnostics_view(d) == seq![(code, None::<u128>)] && all_errors(d)
}

fn single_error(code: &str) -> (d: Vec<Diagnostic>)
    ensures
        refused_with(d@, code@),
{
    let mut d: Vec<Diagnostic> = Vec::new();
    push_error(&mut d, code, None);
    assert(diagnostics_view(d@) =~= seq![(code@, None::<u128>)]);
    d
}

fn contains_id(ids: &Vec<u128>, c: u128) -> (found: bool)
    ensures
        found == ids@.contains(c),
{
    let mut i: usize = 0;
    while i < ids.len()
        invariant
            i <= ids@.len(),
            forall|j: int| 0 <= j < i ==> ids@[j] != c,
        decreases ids@.len() - i,
    {
        if ids[i] == c {
            return true;
        }
        i = i + 1;
    }
    false
}

fn same_id_sets(a: &Vec<u128>, b: &Vec<u128>) -> (same: bool)
    ensures
        same == (a@.to_set() == b@.to_set()),
{
    let mut i: usize = 0;
    while i < a.len()
        invariant
            i <= a@.len(),
            forall|j: int| 0 <= j < i ==> b@.contains(#[trigger] a@[j]),
        decreases a@.len() - i,
    {
        if !contains_id(b, a[i]) {
            assert(a@.to_set().contains(a@[i as int]));
            return false;
        }
        i = i + 1;
    }
    let mut j: usize = 0;
    while j < b.len()
        invariant
            j <= b@.len(),
            forall|k: int| 0 <= k < a@.len() ==> b@.contains(#[trigger] a@[k]),
            forall|k: int| 0 <= k < j ==> a@.contains(#[trigger] b@[k]),
        decreases b@.len() - j,
    {
        if !contains_id(a, b[j]) {
            assert(b@.to_set().contains(b@[j as int]));
            return false;
        }
        j = j + 1;
    }
    proof {
        assert forall|x: u128| a@.to_set().contains(x) <==> b@.to_set().contains(x) by {
            if a@.contains(x) {
                let k = choose|k: int| 0 <= k < a@.len() && a@[k] == x;
            }
            if b@.contains(x) {
                let k = choose|k: int| 0 <= k < b@.len() && b@[k] == x;
            }
        }
        assert(a@.to_set() =~= b@.to_set());
    }
    true
}

/// Checks a slice report against its slice and says whether its outputs
/// may be published: a report about another slice, or one that does not
/// answer for exactly the slice's components, is invalid; one that may not
/// publish must carry no outputs; one that publishes must carry outputs for
/// exactly the slice's components.
pub fn validate_report(report: &SliceReport, slice: &GraphSlice) -> (r: Result<bool, ReportValidationError>)
    ensures
        !same_identity(*report, *slice) ==> (r matches Err(ReportValidationError::Invalid(d)) && refused_with(
            d@,
            "report.slice_identity_mismatch"@,
        )),
        same_identity(*report, *slice) && disposed(*report) != owned(*slice) ==> (r matches Err(ReportValidationError::Invalid(d))
            && refused_with(d@, "report.dispositions.incomplete"@)),
        same_identity(*report, *slice) && disposed(*report) == owned(*slice) && !publishable(*report, *slice) ==> {
            &&& report.outputs@.len() == 0 ==> r == Ok::<bool, ReportValidationError>(false)
            &&& report.outputs@.len() > 0 ==> (r matches Err(ReportValidationError::FailedPrecondition(d)) && refused_with(
                d@,
                "report.outputs.require_ready_slice"@,
            ))
        },
        same_identity(*report, *slice) && disposed(*report) == owned(*slice) && publishable(*report, *slice) ==> {
            &&& published(*report) != owned(*slice) ==> (r matches Err(ReportValidationError::FailedPrecondition(d)) && refused_with(
                d@,
                "report.outputs.incomplete"@,
            ))
            &&& published(*report) == owned(*slice) ==> r == Ok::<bool, ReportValidationError>(true)
        },
{
    if report.graph_id != slice.graph_id || report.generation != slice.generation || report.connector != slice.connector
        || report.sequence != slice.sequence {
        return Err(ReportValidationError::Invalid(single_error("report.slice_identity_mismatch")));
    }
    let mut disposed_ids: Vec<u128> = Vec::new();
    let mut all_ready = true;
    let n = report.dispositions.len();
    let mut i: usize = 0;
    while i < n
        invariant
            n == report.dispositions@.len(),
            i <= n,
            disposed_ids@.len() == i,
            forall|j: int| 0 <= j < i ==> disposed_ids@[j] == (#[trigger] report.dispositions@[j]).component,
            all_ready == forall|j: int| 0 <= j < i ==> (#[trigger] report.dispositions@[j]).ready,
        decreases n - i,
    {
        disposed_ids.push(report.dispositions[i].component);
        all_ready = all_ready && report.dispositions[i].ready;
        i = i + 1;
    }
    proof {
        assert forall|c: u128| disposed_ids@.to_set().contains(c) <==> disposed(*report).contains(c) by {
            if disposed_ids@.contains(c) {
                let j = choose|j: int| 0 <= j < disposed_ids@.len() && disposed_ids@[j] == c;
                assert(report.dispositions@[j].component == c);
            }
            if disposed(*report).contains(c) {
                let j = choose|j: int| 0 <= j < n && #[trigger] report.dispositions@[j].component == c;
                assert(disposed_ids@[j] == c);
            }
        }
        assert(disposed_ids@.to_set() =~= disposed(*report));
    }
    if !same_id_sets(&disposed_ids, &slice.components) {
        return Err(ReportValidationError::Invalid(single_error("report.dispositions.incomplete")));
    }
    let mut has_errors = false;
    let m = report.diagnostics.len();
    let mut k: usize = 0;
    while k < m
        invariant
            m == report.diagnostics@.len(),
            k <= m,
            has_errors == exists|j: int| 0 <= j < k && (#[trigger] report.diagnostics@[j]).severity == DiagnosticSeverity::Error,
        decreases m - k,
    {
        if report.diagnostics[k].severity == DiagnosticSeverity::Error {
            has_errors = true;
        }
        k = k + 1;
    }
    let is_publishable = slice.components.len() > 0 && all_ready && !has_errors;
    if !is_publishable {
        if report.outputs.len() == 0 {
            return Ok(false);
        }
        return Err(ReportValidationError::FailedPrecondition(single_error("report.outputs.require_ready_slice")));
    }
    let mut output_ids: Vec<u128> = Vec::new();
    let p = report.outputs.len();
    let mut t: usize = 0;
    while t < p
        invariant
            p == report.outputs@.len(),
            t <= p,
            output_ids@.len() == t,
            forall|j: int| 0 <= j < t ==> output_ids@[j] == (#[trigger] report.outputs@[j]).component,
        decreases p - t,
    {
        output_ids.push(report.outputs[t].component);
        t = t + 1;
    }
    proof {
        assert forall|c: u128| output_ids@.to_set().contains(c) <==> published(*report).contains(c) by {
            if output_ids@.contains(c) {
                let j = choose|j: int| 0 <= j < output_ids@.len() && output_ids@[j] == c;
                assert(report.outputs@[j].component == c);
            }
            if published(*report).contains(c) {
                let j = choose|j: int| 0 <= j < p && #[trigger] report.outputs@[j].component == c;
                assert(output_ids@[j] == c);
            }
        }
        assert(output_ids@.to_set() =~= published(*report));
    }
    if !same_id_sets(&output_ids, &slice.components) {
        return Err(ReportValidationError::FailedPrecondition(single_error("report.outputs.incomplete")));
    }
    Ok(true)
}


/// Connector configuration names the same connector more than once.
#[derive(Clone, Copy, Debug, PartialEq, Eq, Structural)]
pub struct DuplicateConnector;

impl DuplicateConnector {
    /// The error as its `Display` shows it.
    pub fn message(&self) -> (text: String)
        ensures
            text@ == "connector configuration contains a duplicate key"@,
    {
        String::from_str("connector configuration contains a duplicate key")
    }
}

} // verus!

verus! {

/// What admitting a graph says of each component: an unregistered one is
/// reported as such and nothing more; a registered one is invalid exactly
/// when it depends on itself; it misses a precondition when its connector
/// is unknown or when it depends on a component outside the graph; and a
/// dependency cycle is reported for the graph.
pub proof fn law_admission_diagnostics(
    catalog: Seq<RegisteredComponent>,
    connectors: Set<Seq<char>>,
    graph: Seq<u128>,
    c: u128,
    dep: u128,
)
    ensures
        registration(catalog, c) is None ==> component_preconditions(catalog, connectors, graph, c) == about(
            "component.spec.unregistered"@,
            c,
        ),
        registration(catalog, c) is None ==> component_invalid(catalog, c).len() == 0,
        registration(catalog, c) matches Some(r) ==> (component_invalid(catalog, c).len() > 0 <==> r.depends_on@.contains(c)),
        registration(catalog, c) matches Some(r) ==> (r.depends_on@.contains(c) ==> component_invalid(catalog, c).contains(
            ("component.depends_on.self"@, Some(c)),
        )),
        registration(catalog, c) matches Some(r) ==> (!connectors.contains(r.connector@) ==> component_preconditions(
            catalog,
            connectors,
            graph,
            c,
        ).contains(("component.connector.unregistered"@, Some(c)))),
        registration(catalog, c) matches Some(r) ==> (r.depends_on@.contains(dep) && dep != c && !graph.contains(dep)
            ==> component_preconditions(catalog, connectors, graph, c).contains(("component.depends_on.missing"@, Some(c)))),
        registration(catalog, c) matches Some(r) ==> (connectors.contains(r.connector@) && (forall|d: u128|
            #[trigger] r.depends_on@.contains(d) && d != c ==> graph.contains(d)) ==> component_preconditions(
            catalog,
            connectors,
            graph,
            c,
        ).len() == 0),
        dependency_cycle(catalog, graph) ==> graph_preconditions(catalog, connectors, graph).contains(
            ("graph.dependencies.cycle"@, None::<u128>),
        ),
{
    if let Some(r) = registration(catalog, c) {
        lemma_self_dependencies(r.depends_on@, c);
        lemma_missing_dependencies(r.depends_on@, c, graph, dep);
        let conn: Seq<(Seq<char>, Option<u128>)> = if connectors.contains(r.connector@) {
            Seq::empty()
        } else {
            about("component.connector.unregistered"@, c)
        };
        let miss = missing_dependencies(r.depends_on@, c, graph);
        assert(component_preconditions(catalog, connectors, graph, c) == conn + miss);
        if !connectors.contains(r.connector@) {
            assert((conn + miss)[0] == ("component.connector.unregistered"@, Some(c)));
        }
        if miss.contains(("component.depends_on.missing"@, Some(c))) {
            let k = choose|k: int| 0 <= k < miss.len() && miss[k] == ("component.depends_on.missing"@, Some(c));
            assert((conn + miss)[conn.len() + k] == miss[k]);
        }
    }
    if dependency_cycle(catalog, graph) {
        let pre = preconditions_upto(catalog, connectors, graph, graph.len() as int);
        assert(graph_preconditions(catalog, connectors, graph)[pre.len() as int] == ("graph.dependencies.cycle"@, None::<u128>));
    }
}

proof fn lemma_self_dependencies(deps: Seq<u128>, c: u128)
    ensures
        self_dependencies(deps, c).len() > 0 <==> deps.contains(c),
        deps.contains(c) ==> self_dependencies(deps, c).contains(("component.depends_on.self"@, Some(c))),
    decreases deps.len(),
{
    if deps.len() > 0 {
        let front = deps.drop_last();
        lemma_self_dependencies(front, c);
        let before = self_dependencies(front, c);
        assert(deps.contains(c) <==> front.contains(c) || deps.last() == c) by {
            if deps.contains(c) {
                let i = choose|i: int| 0 <= i < deps.len() && deps[i] == c;
                if i < front.len() {
                    assert(front[i] == c);
                }
            }
            if front.contains(c) {
                let i = choose|i: int| 0 <= i < front.len() && front[i] == c;
                assert(deps[i] == c);
            }
        }
        if before.contains(("component.depends_on.self"@, Some(c))) {
            let k = choose|k: int| 0 <= k < before.len() && before[k] == ("component.depends_on.self"@, Some(c));
            assert(self_dependencies(deps, c)[k] == before[k]);
        }
        if deps.last() == c {
            assert(self_dependencies(deps, c)[before.len() as int] == ("component.depends_on.self"@, Some(c)));
        }
    }
}

proof fn lemma_missing_dependencies(deps: Seq<u128>, c: u128, graph: Seq<u128>, dep: u128)
    ensures
        deps.contains(dep) && dep != c && !graph.contains(dep) ==> missing_dependencies(deps, c, graph).contains(
            ("component.depends_on.missing"@, Some(c)),
        ),
        (forall|d: u128| #[trigger] deps.contains(d) && d != c ==> graph.contains(d)) ==> missing_dependencies(
            deps,
            c,
            graph,
        ).len() == 0,
    decreases deps.len(),
{
    if deps.len() > 0 {
        let front = deps.drop_last();
        lemma_missing_dependencies(front, c, graph, dep);
        let before = missing_dependencies(front, c, graph);
        if deps.contains(dep) && dep != c && !graph.contains(dep) {
            let i = choose|i: int| 0 <= i < deps.len() && deps[i] == dep;
            if i < front.len() {
                assert(front[i] == dep);
                let k = choose|k: int| 0 <= k < before.len() && before[k] == ("component.depends_on.missing"@, Some(c));
                assert(missing_dependencies(deps, c, graph)[k] == before[k]);
            } else {
                assert(missing_dependencies(deps, c, graph)[before.len() as int] == ("component.depends_on.missing"@, Some(c)));
            }
        }
        if forall|d: u128| #[trigger] deps.contains(d) && d != c ==> graph.contains(d) {
            assert forall|d: u128| #[trigger] front.contains(d) && d != c implies graph.contains(d) by {
                let i = choose|i: int| 0 <= i < front.len() && front[i] == d;
                assert(deps[i] == d);
                assert(deps.contains(d));
            }
            assert(deps.contains(deps.last())) by {
                assert(deps[deps.len() - 1] == deps.last());
            }
        }
    }
}

/// A report may publish only when its slice owns components, every
/// disposition is ready and no diagnostic is an error; a report about
/// another graph, generation, connector or sequence is about another slice.
pub proof fn law_report_publishable(r: SliceReport, s: GraphSlice, i: int, j: int)
    ensures
        s.components@.len() == 0 ==> !publishable(r, s),
        0 <= i < r.dispositions@.len() && !r.dispositions@[i].ready ==> !publishable(r, s),
        0 <= j < r.diagnostics@.len() && r.diagnostics@[j].severity == DiagnosticSeverity::Error ==> !publishable(r, s),
        r.graph_id != s.graph_id || r.generation != s.generation || r.connector@ != s.connector@ || r.sequence != s.sequence
            ==> !same_identity(r, s),
{
}

} // verus!
