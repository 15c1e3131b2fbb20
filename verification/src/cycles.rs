//! Depth-first cycle search over a directed graph whose nodes are the
//! indices `0..n` and whose edges out of each node are listed in visiting
//! order. The wait graph of the simulator, the blocked components of a plan
//! and the dependencies of a graph intent all search for cycles through it.

use vstd::prelude::*;
use vstd::set_lib::*;

verus! {

/// The adjacency lists of a graph as sequences.
pub open spec fn graph_of(adj: &Vec<Vec<usize>>) -> Seq<Seq<usize>> {
    Seq::new(adj@.len(), |i: int| adj@[i]@)
}

/// Every listed target is a node of the graph.
pub open spec fn closed_graph(g: Seq<Seq<usize>>) -> bool {
    forall|u: int, j: int| 0 <= u < g.len() && 0 <= j < g[u].len() ==> #[trigger] g[u][j] < g.len()
}

/// `u -> v` is an edge of `g`.
pub open spec fn has_edge(g: Seq<Seq<usize>>, u: int, v: int) -> bool {
    0 <= u < g.len() && exists|j: int| 0 <= j < g[u].len() && g[u][j] == v
}

/// `c` walks along edges and comes back to where it started.
pub open spec fn is_cycle(g: Seq<Seq<usize>>, c: Seq<usize>) -> bool {
    &&& c.len() >= 2
    &&& c[0] == c[c.len() - 1]
    &&& forall|i: int| 0 <= i < c.len() - 1 ==> #[trigger] has_edge(g, c[i] as int, c[i + 1] as int)
}

/// `g` holds no cycle.
pub open spec fn acyclic(g: Seq<Seq<usize>>) -> bool {
    forall|c: Seq<usize>| !#[trigger] is_cycle(g, c)
}

/// A ranking that strictly decreases along every edge rules every cycle out.
proof fn lemma_rank_rules_out_cycles(g: Seq<Seq<usize>>, rank: Seq<int>)
    requires
        rank.len() == g.len(),
        closed_graph(g),
        forall|u: int, v: int| #[trigger] has_edge(g, u, v) ==> 0 <= v < g.len() && rank[v] < rank[u],
    ensures
        acyclic(g),
{
    assert forall|c: Seq<usize>| !#[trigger] is_cycle(g, c) by {
        if is_cycle(g, c) {
            lemma_rank_descends(g, rank, c, c.len() - 1);
            assert(rank[c[c.len() - 1] as int] < rank[c[0] as int]);
        }
    }
}

proof fn lemma_rank_descends(g: Seq<Seq<usize>>, rank: Seq<int>, c: Seq<usize>, k: int)
    requires
        rank.len() == g.len(),
        forall|u: int, v: int| #[trigger] has_edge(g, u, v) ==> 0 <= v < g.len() && rank[v] < rank[u],
        is_cycle(g, c),
        1 <= k < c.len(),
    ensures
        rank[c[k] as int] <= rank[c[0] as int] - k,
    decreases k,
{
    let i = k - 1;
    assert(has_edge(g, c[i] as int, c[i + 1] as int));
    if k > 1 {
        lemma_rank_descends(g, rank, c, k - 1);
    }
}

/// A duplicate-free sequence of nodes below `n` that leaves out `u` has
/// fewer than `n` elements.
proof fn lemma_path_bound(path: Seq<usize>, n: nat, u: usize)
    requires
        path.no_duplicates(),
        u < n,
        !path.contains(u),
        forall|i: int| 0 <= i < path.len() ==> path[i] < n,
    ensures
        path.len() < n,
{
    let ints = path.map_values(|x: usize| x as int);
    assert(ints.no_duplicates()) by {
        assert forall|i: int, j: int| 0 <= i < ints.len() && 0 <= j < ints.len() && i != j implies ints[i]
            != ints[j] by {
            assert(path[i] != path[j]);
        }
    }
    ints.unique_seq_to_set();
    let range = set_int_range(0, n as int).remove(u as int);
    lemma_int_range(0, n as int);
    assert(ints.to_set().subset_of(range)) by {
        assert forall|x: int| ints.to_set().contains(x) implies range.contains(x) by {
            let i = choose|i: int| 0 <= i < ints.len() && ints[i] == x;
            assert(path[i] < n);
            assert(path[i] != u);
        }
    }
    lemma_len_subset(ints.to_set(), range);
}

/// The search state: colors (0 unvisited, 1 on the current path, 2 done),
/// the current path, and a ghost finishing rank of every done node.
pub open spec fn search_state(
    g: Seq<Seq<usize>>,
    color: Seq<u8>,
    path: Seq<usize>,
    fin: Seq<int>,
    clock: int,
) -> bool {
    &&& color.len() == g.len()
    &&& fin.len() == g.len()
    &&& path.no_duplicates()
    &&& forall|i: int| 0 <= i < path.len() ==> #[trigger] path[i] < g.len() && color[path[i] as int] == 1
    &&& forall|x: int| 0 <= x < g.len() && color[x] == 1 ==> path.contains(x as usize)
    &&& forall|x: int| 0 <= x < g.len() ==> color[x] <= 2
    &&& forall|i: int| 0 <= i < path.len() - 1 ==> #[trigger] has_edge(g, path[i] as int, path[i + 1] as int)
    &&& forall|x: int, y: int|
        #![trigger has_edge(g, x, y), color[x]]
        0 <= x < g.len() && color[x] == 2 && has_edge(g, x, y) ==> color[y] == 2 && fin[y] < fin[x]
    &&& forall|x: int| 0 <= x < g.len() && color[x] == 2 ==> #[trigger] fin[x] < clock
}

/// Nodes that were done stay done with the same rank, and nodes on the path
/// stay on it.
pub open spec fn search_progress(old_color: Seq<u8>, color: Seq<u8>, old_fin: Seq<int>, fin: Seq<int>) -> bool {
    &&& color.len() == old_color.len()
    &&& forall|x: int| 0 <= x < color.len() && old_color[x] == 2 ==> #[trigger] color[x] == 2 && fin[x] == old_fin[x]
    &&& forall|x: int| 0 <= x < color.len() && old_color[x] == 1 ==> #[trigger] color[x] == 1
}

fn position_of(path: &Vec<usize>, v: usize) -> (pos: usize)
    requires
        path@.contains(v),
    ensures
        pos < path@.len(),
        path@[pos as int] == v,
{
    let mut i: usize = 0;
    while i < path.len()
        invariant
            i <= path@.len(),
            path@.contains(v),
            forall|k: int| 0 <= k < i ==> path@[k] != v,
        decreases path@.len() - i,
    {
        if path[i] == v {
            return i;
        }
        i = i + 1;
    }
    proof {
        let k = choose|k: int| 0 <= k < path@.len() && path@[k] == v;
    }
    0
}

/// How many nodes are still unvisited.
pub open spec fn unvisited(color: Seq<u8>) -> nat
    decreases color.len(),
{
    if color.len() == 0 {
        0
    } else {
        unvisited(color.drop_last()) + if color.last() == 0 { 1nat } else { 0nat }
    }
}

pub proof fn lemma_unvisited_mark(color: Seq<u8>, u: int, c: u8)
    requires
        0 <= u < color.len(),
        color[u] == 0,
        c != 0,
    ensures
        unvisited(color.update(u, c)) + 1 == unvisited(color),
    decreases color.len(),
{
    let t = color.update(u, c);
    if u < color.len() - 1 {
        assert(t.drop_last() =~= color.drop_last().update(u, c));
        lemma_unvisited_mark(color.drop_last(), u, c);
    } else {
        assert(t.drop_last() =~= color.drop_last());
    }
}

proof fn lemma_unvisited_shrinks(a: Seq<u8>, b: Seq<u8>)
    requires
        a.len() == b.len(),
        forall|x: int| 0 <= x < a.len() && a[x] != 0 ==> b[x] != 0,
    ensures
        unvisited(b) <= unvisited(a),
    decreases a.len(),
{
    if a.len() > 0 {
        lemma_unvisited_shrinks(a.drop_last(), b.drop_last());
    }
}

/// The path from where `v` sits on `path` to its end.
pub open spec fn path_from(path: Seq<usize>, v: usize) -> Seq<usize> {
    path.subrange(choose|i: int| 0 <= i < path.len() && path[i] == v, path.len() as int)
}

/// The depth-first search from node `u` (unvisited) with `path` leading to
/// it: the cycle it meets first, if any, and the colors it leaves (every
/// node it finished is done).
pub open spec fn search_node(g: Seq<Seq<usize>>, color: Seq<u8>, path: Seq<usize>, u: int) -> (Option<Seq<usize>>, Seq<u8>)
    decreases unvisited(color), 0nat, 0nat,
{
    if !(0 <= u < color.len() && color[u] == 0) {
        (None, color)
    } else {
        proof {
            lemma_unvisited_mark(color, u, 1);
        }
        let r = search_targets(g, color.update(u, 1), path.push(u as usize), u, 0);
        match r.0 {
            Some(_) => r,
            None => (None, r.1.update(u, 2)),
        }
    }
}

/// The search over the targets of `u` from its `j`th on, in list order: an
/// edge to a node on the path closes a cycle; an unvisited node is searched;
/// a finished one is passed over.
pub open spec fn search_targets(g: Seq<Seq<usize>>, color: Seq<u8>, path: Seq<usize>, u: int, j: int) -> (
    Option<Seq<usize>>,
    Seq<u8>,
)
    decreases unvisited(color), 1nat, (if 0 <= u < g.len() && 0 <= j <= g[u].len() { g[u].len() - j } else { 0 }) as nat,
{
    if !(0 <= u < g.len()) || j < 0 || j >= g[u].len() {
        (None, color)
    } else {
        let v = g[u][j] as int;
        if !(0 <= v < color.len()) {
            (None, color)
        } else if color[v] == 1 {
            (Some(path_from(path, v as usize).push(v as usize)), color)
        } else if color[v] == 0 {
            let r = search_node(g, color, path, v);
            if r.0 is Some {
                r
            } else if unvisited(r.1) <= unvisited(color) {
                search_targets(g, r.1, path, u, j + 1)
            } else {
                (None, color)
            }
        } else {
            search_targets(g, color, path, u, j + 1)
        }
    }
}

/// The search from each node in index order, skipping those visited: the
/// first cycle met, if any.
pub open spec fn search_all(g: Seq<Seq<usize>>, color: Seq<u8>, start: int) -> Option<Seq<usize>>
    decreases g.len() - start,
{
    if start < 0 || start >= g.len() || color.len() != g.len() {
        None
    } else if color[start] == 0 {
        let r = search_node(g, color, Seq::empty(), start);
        match r.0 {
            Some(c) => Some(c),
            None => search_all(g, r.1, start + 1),
        }
    } else {
        search_all(g, color, start + 1)
    }
}

/// The cycle the search of `g` meets first, or nothing.
pub open spec fn first_cycle(g: Seq<Seq<usize>>) -> Seq<usize> {
    match search_all(g, Seq::new(g.len(), |i: int| 0u8), 0) {
        Some(c) => c,
        None => Seq::empty(),
    }
}

proof fn lemma_node_unfold(g: Seq<Seq<usize>>, color: Seq<u8>, path: Seq<usize>, u: int)
    requires
        0 <= u < color.len(),
        color[u] == 0,
    ensures
        ({
            let r = search_targets(g, color.update(u, 1), path.push(u as usize), u, 0);
            search_node(g, color, path, u) == if r.0 is Some {
                r
            } else {
                (None, r.1.update(u, 2))
            }
        }),
{
}

proof fn lemma_targets_unfold(g: Seq<Seq<usize>>, color: Seq<u8>, path: Seq<usize>, u: int, j: int)
    requires
        0 <= u < g.len(),
        0 <= j,
    ensures
        j >= g[u].len() ==> search_targets(g, color, path, u, j) == (None::<Seq<usize>>, color),
        j < g[u].len() && 0 <= g[u][j] < color.len() ==> {
            let v = g[u][j] as int;
            &&& color[v] == 1 ==> search_targets(g, color, path, u, j) == (Some(path_from(path, v as usize).push(v as usize)), color)
            &&& color[v] != 0 && color[v] != 1 ==> search_targets(g, color, path, u, j) == search_targets(g, color, path, u, j + 1)
            &&& color[v] == 0 ==> {
                let r = search_node(g, color, path, v);
                &&& r.0 is Some ==> search_targets(g, color, path, u, j) == r
                &&& r.0 is None && unvisited(r.1) <= unvisited(color) ==> search_targets(g, color, path, u, j)
                    == search_targets(g, r.1, path, u, j + 1)
            }
        },
{
}

fn search_from(
    adj: &Vec<Vec<usize>>,
    u: usize,
    color: &mut Vec<u8>,
    path: &mut Vec<usize>,
    Ghost(fin): Ghost<Seq<int>>,
    Ghost(clock): Ghost<int>,
) -> (res: (Option<Vec<usize>>, Ghost<Seq<int>>, Ghost<int>))
    requires
        closed_graph(graph_of(adj)),
        search_state(graph_of(adj), old(color)@, old(path)@, fin, clock),
        u < adj@.len(),
        old(color)@[u as int] == 0,
        old(path)@.len() > 0 ==> has_edge(graph_of(adj), old(path)@.last() as int, u as int),
    ensures
        res.0 matches Some(c) ==> is_cycle(graph_of(adj), c@) && c@.drop_last().no_duplicates(),
        match search_node(graph_of(adj), old(color)@, old(path)@, u as int).0 {
            Some(c) => res.0 matches Some(x) && x@ == c,
            None => res.0 is None && final(color)@ == search_node(graph_of(adj), old(color)@, old(path)@, u as int).1,
        },
        res.0 is None ==> {
            &&& search_state(graph_of(adj), final(color)@, final(path)@, res.1@, res.2@)
            &&& search_progress(old(color)@, final(color)@, fin, res.1@)
            &&& final(path)@ == old(path)@
            &&& final(color)@[u as int] == 2
            &&& res.2@ >= clock
        },
    decreases adj@.len() - old(path)@.len(),
{
    let ghost g = graph_of(adj);
    let n = adj.len();
    proof {
        lemma_path_bound(path@, adj@.len() as nat, u);
    }
    let ghost path0 = path@;
    let ghost color0 = color@;
    color.set(u, 1);
    path.push(u);
    assert(path@.no_duplicates()) by {
        assert(!path0.contains(u));
    }
    assert forall|x: int| 0 <= x < g.len() && color@[x] == 1 implies path@.contains(x as usize) by {
        if x != u as int {
            assert(path0.contains(x as usize));
            let k = choose|k: int| 0 <= k < path0.len() && path0[k] == x as usize;
            assert(path@[k] == x as usize);
        } else {
            assert(path@[path0.len() as int] == u);
        }
    }
    assert forall|i: int| 0 <= i < path@.len() - 1 implies #[trigger] has_edge(
        g,
        path@[i] as int,
        path@[i + 1] as int,
    ) by {
        if i < path0.len() - 1 {
            assert(has_edge(g, path0[i] as int, path0[i + 1] as int));
        }
    }
    let ghost mut fin_cur = fin;
    let ghost mut clock_cur = clock;
    let targets = &adj[u];
    let count = targets.len();
    let mut j: usize = 0;
    while j < count
        invariant
            closed_graph(g),
            g == graph_of(adj),
            u < adj@.len(),
            targets@ == g[u as int],
            count == targets@.len(),
            j <= count,
            search_state(g, color@, path@, fin_cur, clock_cur),
            search_progress(color0.update(u as int, 1), color@, fin, fin_cur),
            path@ == path0.push(u),
            path0 == old(path)@,
            path0.len() < adj@.len(),
            color@[u as int] == 1,
            clock_cur >= clock,
            forall|k: int| 0 <= k < j ==> #[trigger] color@[targets@[k] as int] == 2,
            color0 == old(color)@,
            color0.len() == g.len(),
            color0[u as int] == 0,
            search_targets(g, color0.update(u as int, 1), path0.push(u), u as int, 0) == search_targets(
                g,
                color@,
                path@,
                u as int,
                j as int,
            ),
        decreases count - j,
    {
        let v = targets[j];
        assert(v < adj@.len());
        if color[v] == 1 {
            let pos = position_of(path, v);
            let mut cycle: Vec<usize> = Vec::new();
            let mut k = pos;
            let plen = path.len();
            while k < plen
                invariant
                    pos <= k <= plen,
                    plen == path@.len(),
                    pos < plen,
                    cycle@ == path@.subrange(pos as int, k as int),
                decreases plen - k,
            {
                cycle.push(path[k]);
                k = k + 1;
            }
            cycle.push(v);
            proof {
                assert(path@.last() == u);
                assert(has_edge(g, u as int, v as int)) by {
                    assert(g[u as int][j as int] == v);
                }
                assert forall|i: int| 0 <= i < cycle@.len() - 1 implies #[trigger] has_edge(
                    g,
                    cycle@[i] as int,
                    cycle@[i + 1] as int,
                ) by {
                    if i < cycle@.len() - 2 {
                        assert(cycle@[i] == path@[pos + i]);
                        assert(cycle@[i + 1] == path@[pos + i + 1]);
                        assert(has_edge(g, path@[pos + i] as int, path@[pos + i + 1] as int));
                    } else {
                        assert(cycle@[i] == path@[plen - 1]);
                    }
                }
                assert(cycle@.drop_last() =~= path@.subrange(pos as int, plen as int));
                assert(cycle@.drop_last().no_duplicates()) by {
                    assert forall|a: int, b: int| 0 <= a < b < cycle@.len() - 1 implies cycle@.drop_last()[a]
                        != cycle@.drop_last()[b] by {
                        assert(cycle@.drop_last()[a] == path@[pos + a]);
                        assert(cycle@.drop_last()[b] == path@[pos + b]);
                    }
                }
                let i = choose|i: int| 0 <= i < path@.len() && path@[i] == v;
                assert(path@[pos as int] == v);
                if i != pos {
                    assert(path@.no_duplicates());
                }
                assert(cycle@ =~= path_from(path@, v).push(v));
                assert(g[u as int][j as int] == v);
                lemma_targets_unfold(g, color@, path@, u as int, j as int);
                lemma_node_unfold(g, color0, path0, u as int);
            }
            return (Some(cycle), Ghost(fin_cur), Ghost(clock_cur));
        } else if color[v] == 0 {
            let ghost color_before = color@;
            assert(has_edge(g, path@.last() as int, v as int)) by {
                assert(g[u as int][j as int] == v);
            }
            let (found, Ghost(fin_next), Ghost(clock_next)) = search_from(
                adj,
                v,
                color,
                path,
                Ghost(fin_cur),
                Ghost(clock_cur),
            );
            proof {
                assert(g[u as int][j as int] == v);
                assert(color_before.len() == g.len());
                assert(color_before[v as int] == 0);
                if found is None {
                    assert forall|x: int| 0 <= x < color_before.len() && color_before[x] != 0 implies color@[x] != 0 by {
                        assert(color_before[x] <= 2);
                    }
                    lemma_unvisited_shrinks(color_before, color@);
                }
                lemma_targets_unfold(g, color_before, path@, u as int, j as int);
                lemma_node_unfold(g, color0, path0, u as int);
            }
            if found.is_some() {
                return (found, Ghost(fin_next), Ghost(clock_next));
            }
            proof {
                assert forall|k: int| 0 <= k < j + 1 implies #[trigger] color@[targets@[k] as int] == 2 by {
                    if k < j {
                        assert(color_before[targets@[k] as int] == 2);
                    }
                }
                fin_cur = fin_next;
                clock_cur = clock_next;
            }
        } else {
            assert(color@[v as int] == 2);
            assert(g[u as int][j as int] == v);
            proof {
                lemma_targets_unfold(g, color@, path@, u as int, j as int);
            }
        }
        j = j + 1;
    }
    let ghost color_loop = color@;
    proof {
        lemma_targets_unfold(g, color_loop, path@, u as int, j as int);
        lemma_node_unfold(g, color0, path0, u as int);
    }
    color.set(u, 2);
    path.pop();
    proof {
        assert(path@ == path0);
        let fin_done = fin_cur.update(u as int, clock_cur);
        // every successor of u is done and was finished before u
        assert forall|y: int| has_edge(g, u as int, y) implies color@[y] == 2 && fin_done[y] < clock_cur by {
            let k = choose|k: int| 0 <= k < g[u as int].len() && g[u as int][k] == y;
            assert(color_loop[targets@[k] as int] == 2);
            assert(y != u as int);
        }
        assert forall|x: int| 0 <= x < g.len() && color@[x] == 1 implies path@.contains(x as usize) by {
            assert(color_loop[x] == 1);
            assert(x != u as int);
            assert(path0.push(u).contains(x as usize));
            let k = choose|k: int| 0 <= k < path0.push(u).len() && path0.push(u)[k] == x as usize;
            if k == path0.len() {
                assert(path0.push(u)[k] == u);
                assert(x < n);
            }
            assert(k < path0.len());
            assert(path0[k] == x as usize);
        }
        assert forall|i: int| 0 <= i < path@.len() implies #[trigger] path@[i] < g.len() && color@[path@[i] as int]
            == 1 by {
            assert(path0.push(u)[i] == path0[i]);
            assert(path0[i] != u);
        }
        assert forall|x: int, y: int|
            #![trigger has_edge(g, x, y), color@[x]]
            0 <= x < g.len() && color@[x] == 2 && has_edge(g, x, y) implies color@[y] == 2 && fin_done[y]
            < fin_done[x] by {
            if x != u as int {
                assert(color_loop[x] == 2);
            }
        }
        assert(search_progress(color0, color@, fin, fin_done)) by {
            assert forall|x: int| 0 <= x < color@.len() && color0[x] == 1 implies #[trigger] color@[x] == 1 by {
                assert(path0.contains(x as usize));
                assert(x != u as int);
            }
        }
        fin_cur = fin_done;
        clock_cur = clock_cur + 1;
    }
    (None, Ghost(fin_cur), Ghost(clock_cur))
}

/// Searches the graph depth first, starting from each node in index order
/// and following edges in list order, and returns the first cycle met: the
/// path from the repeated node back to itself. The result is empty exactly
/// when the graph holds no cycle, and no node repeats before the cycle
/// closes.
pub fn find_cycle(adj: &Vec<Vec<usize>>) -> (cycle: Vec<usize>)
    requires
        closed_graph(graph_of(adj)),
    ensures
        cycle@.len() > 0 ==> is_cycle(graph_of(adj), cycle@) && cycle@.drop_last().no_duplicates(),
        cycle@.len() == 0 <==> acyclic(graph_of(adj)),
        cycle@ == first_cycle(graph_of(adj)),
{
    let ghost g = graph_of(adj);
    let n = adj.len();
    let mut color: Vec<u8> = Vec::new();
    let mut i: usize = 0;
    while i < n
        invariant
            i <= n,
            color@.len() == i,
            forall|x: int| 0 <= x < i ==> color@[x] == 0,
        decreases n - i,
    {
        color.push(0);
        i = i + 1;
    }
    assert(color@ =~= Seq::new(g.len(), |i: int| 0u8));
    let ghost initial = color@;
    let mut path: Vec<usize> = Vec::new();
    let ghost mut fin: Seq<int> = Seq::new(n as nat, |x: int| 0);
    let ghost mut clock: int = 0;
    let mut start: usize = 0;
    while start < n
        invariant
            g == graph_of(adj),
            closed_graph(g),
            n == g.len(),
            start <= n,
            path@.len() == 0,
            search_state(g, color@, path@, fin, clock),
            forall|x: int| 0 <= x < start ==> #[trigger] color@[x] == 2,
            initial == Seq::new(g.len(), |i: int| 0u8),
            search_all(g, initial, 0) == search_all(g, color@, start as int),
        decreases n - start,
    {
        if color[start] == 0 {
            let ghost color_before = color@;
            assert(path@ =~= Seq::<usize>::empty());
            let (found, Ghost(fin_next), Ghost(clock_next)) = search_from(
                adj,
                start,
                &mut color,
                &mut path,
                Ghost(fin),
                Ghost(clock),
            );
            assert(search_all(g, color_before, start as int) == match search_node(g, color_before, Seq::empty(), start as int).0 {
                Some(c) => Some(c),
                None => search_all(g, search_node(g, color_before, Seq::empty(), start as int).1, start + 1),
            });
            match found {
                Some(c) => {
                    return c;
                },
                None => {},
            }
            proof {
                assert forall|x: int| 0 <= x < start + 1 implies #[trigger] color@[x] == 2 by {
                    if x < start {
                        assert(color_before[x] == 2);
                    }
                }
                fin = fin_next;
                clock = clock_next;
            }
        } else {
            assert(search_all(g, color@, start as int) == search_all(g, color@, start + 1));
            assert(color[start as int] != 1) by {
                if color[start as int] == 1 {
                    assert(path@.contains(start));
                }
            }
        }
        start = start + 1;
    }
    proof {
        assert(search_all(g, color@, n as int) is None);
        assert forall|u: int, v: int| #[trigger] has_edge(g, u, v) implies 0 <= v < g.len() && fin[v] < fin[u] by {
            assert(color@[u] == 2);
            let k = choose|k: int| 0 <= k < g[u].len() && g[u][k] == v;
            assert(g[u][k] < g.len());
        }
        lemma_rank_rules_out_cycles(g, fin);
    }
    Vec::new()
}

} // verus!
