//! The graph registry as the journal's registry stream builds it: each
//! graph's latest intent and whether it was retired.

use vstd::prelude::*;

verus! {

/// One event of the registry stream, about graph `id`; a retirement also
/// carries the graph's last generation.
#[derive(Debug)]
pub enum RegistryEvent<I> {
    Registered(u128, I),
    RegistrationSuperseded(u128, I),
    Retired(u128, u64),
}

/// The graph the event is about.
pub open spec fn event_graph<I>(e: RegistryEvent<I>) -> u128 {
    match e {
        RegistryEvent::Registered(id, _) => id,
        RegistryEvent::RegistrationSuperseded(id, _) => id,
        RegistryEvent::Retired(id, _) => id,
    }
}

/// What the registry holds of a graph: its latest intent and whether it is
/// retired.
#[derive(Debug)]
pub struct RegistryGraph<I> {
    pub intent: I,
    pub retired: bool,
}

/// The registry after `events`, by graph id: a registration sets the
/// graph's intent and makes it active, a superseding registration replaces
/// the intent of a registered graph and makes it active again, and a
/// retirement marks a registered graph retired.
pub open spec fn folded<I>(events: Seq<RegistryEvent<I>>) -> Map<u128, (I, bool)>
    decreases events.len(),
{
    if events.len() == 0 {
        Map::empty()
    } else {
        let before = folded(events.drop_last());
        match events.last() {
            RegistryEvent::Registered(id, intent) => before.insert(id, (intent, false)),
            RegistryEvent::RegistrationSuperseded(id, intent) => before.insert(id, (intent, false)),
            RegistryEvent::Retired(id, _) => before.insert(id, (before[id].0, true)),
        }
    }
}

/// Every superseding registration and retirement is about a graph that an
/// earlier event registered.
pub open spec fn well_ordered<I>(events: Seq<RegistryEvent<I>>) -> bool {
    forall|k: int|
        0 <= k < events.len() ==> match #[trigger] events[k] {
            RegistryEvent::Registered(_, _) => true,
            _ => folded(events.take(k)).contains_key(event_graph(events[k])),
        }
}

/// The registry state: the stream position it was read up to and each
/// graph's registration.
#[derive(Debug)]
pub struct RegistryState<I> {
    tail: u64,
    graphs: Vec<(u128, RegistryGraph<I>)>,
}

/// The registrations as a map.
pub open spec fn graphs_map<I>(graphs: Seq<(u128, RegistryGraph<I>)>) -> Map<u128, (I, bool)>
    decreases graphs.len(),
{
    if graphs.len() == 0 {
        Map::empty()
    } else {
        let g = graphs.last();
        graphs_map(graphs.drop_last()).insert(g.0, (g.1.intent, g.1.retired))
    }
}

/// Each graph id occurs once.
pub open spec fn ids_unique<I>(graphs: Seq<(u128, RegistryGraph<I>)>) -> bool {
    forall|i: int, j: int| 0 <= i < j < graphs.len() ==> graphs[i].0 != graphs[j].0
}

proof fn lemma_graphs_map_index<I>(graphs: Seq<(u128, RegistryGraph<I>)>, i: int)
    requires
        ids_unique(graphs),
        0 <= i < graphs.len(),
    ensures
        graphs_map(graphs).contains_key(graphs[i].0),
        graphs_map(graphs)[graphs[i].0] == (graphs[i].1.intent, graphs[i].1.retired),
    decreases graphs.len(),
{
    if i < graphs.len() - 1 {
        lemma_graphs_map_index(graphs.drop_last(), i);
    }
}

proof fn lemma_graphs_map_absent<I>(graphs: Seq<(u128, RegistryGraph<I>)>, id: u128)
    requires
        forall|j: int| 0 <= j < graphs.len() ==> graphs[j].0 != id,
    ensures
        !graphs_map(graphs).contains_key(id),
    decreases graphs.len(),
{
    if graphs.len() > 0 {
        lemma_graphs_map_absent(graphs.drop_last(), id);
    }
}

proof fn lemma_graphs_map_update<I>(graphs: Seq<(u128, RegistryGraph<I>)>, i: int, g: RegistryGraph<I>)
    requires
        ids_unique(graphs),
        0 <= i < graphs.len(),
    ensures
        graphs_map(graphs.update(i, (graphs[i].0, g))) == graphs_map(graphs).insert(graphs[i].0, (g.intent, g.retired)),
    decreases graphs.len(),
{
    let u = graphs.update(i, (graphs[i].0, g));
    if i == graphs.len() - 1 {
        assert(u.drop_last() =~= graphs.drop_last());
        lemma_graphs_map_absent(graphs.drop_last(), graphs[i].0);
        assert(graphs_map(u) =~= graphs_map(graphs).insert(graphs[i].0, (g.intent, g.retired)));
    } else {
        assert(u.drop_last() =~= graphs.drop_last().update(i, (graphs[i].0, g)));
        lemma_graphs_map_update(graphs.drop_last(), i, g);
        assert(graphs_map(u) =~= graphs_map(graphs).insert(graphs[i].0, (g.intent, g.retired)));
    }
}

impl<I> RegistryState<I> {
    /// Each graph occurs once.
    #[verifier::type_invariant]
    spec fn unique(&self) -> bool {
        ids_unique(self.graphs@)
    }

    /// The registrations, by graph id.
    pub closed spec fn graphs(&self) -> Map<u128, (I, bool)> {
        graphs_map(self.graphs@)
    }

    /// The stream position the registry was read up to.
    pub closed spec fn position(&self) -> u64 {
        self.tail
    }

    /// The stream position the registry was read up to.
    pub fn tail(&self) -> (t: u64)
        ensures
            t == self.position(),
    {
        self.tail
    }

    /// The intent of graph `id` and whether it is retired, if it was
    /// registered.
    pub fn get(&self, id: u128) -> (found: Option<(&I, bool)>)
        ensures
            match found {
                Some((intent, retired)) => self.graphs().contains_key(id) && self.graphs()[id] == (*intent, retired),
                None => !self.graphs().contains_key(id),
            },
    {
        proof {
            use_type_invariant(self);
        }
        match self.locate(id) {
            Some(i) => {
                proof {
                    lemma_graphs_map_index(self.graphs@, i as int);
                }
                Some((&self.graphs[i].1.intent, self.graphs[i].1.retired))
            },
            None => {
                proof {
                    lemma_graphs_map_absent(self.graphs@, id);
                }
                None
            },
        }
    }

    fn locate(&self, id: u128) -> (at: Option<usize>)
        requires
            ids_unique(self.graphs@),
        ensures
            match at {
                Some(i) => i < self.graphs@.len() && self.graphs@[i as int].0 == id,
                None => forall|j: int| 0 <= j < self.graphs@.len() ==> self.graphs@[j].0 != id,
            },
    {
        let mut i: usize = 0;
        while i < self.graphs.len()
            invariant
                i <= self.graphs@.len(),
                forall|j: int| 0 <= j < i ==> self.graphs@[j].0 != id,
            decreases self.graphs@.len() - i,
        {
            if self.graphs[i].0 == id {
                return Some(i);
            }
            i = i + 1;
        }
        None
    }

    /// Folds the registry stream read up to `tail`, as `folded` states.
    /// Every superseding registration and retirement must follow the
    /// registration of its graph.
    pub fn fold(tail: u64, events: Vec<RegistryEvent<I>>) -> (state: Self)
        requires
            well_ordered(events@),
        ensures
            state.position() == tail,
            state.graphs() == folded(events@),
    {
        let ghost all = events@;
        let mut state = RegistryState { tail, graphs: Vec::new() };
        let mut rest = events;
        let mut done: usize = 0;
        assert(all.skip(0) =~= all);
        assert(all.len() == rest.len());
        assert(graphs_map(state.graphs@) =~= folded(all.take(0)));
        while rest.len() > 0
            invariant
                all.len() <= usize::MAX,
                well_ordered(all),
                done + rest@.len() == all.len(),
                rest@ == all.skip(done as int),
                state.tail == tail,
                ids_unique(state.graphs@),
                graphs_map(state.graphs@) == folded(all.take(done as int)),
            decreases rest@.len(),
        {
            let event = rest.remove(0);
            proof {
                assert(all.skip(done as int)[0] == event);
                assert(all.skip(done as int).drop_first() =~= all.skip(done + 1));
                assert(all.take(done + 1).drop_last() =~= all.take(done as int));
                assert(all.take(done + 1).last() == event);
                assert(all[done as int] == event);
            }
            let ghost before = state.graphs@;
            match event {
                RegistryEvent::Registered(id, intent) => {
                    state.put(id, RegistryGraph { intent, retired: false });
                },
                RegistryEvent::RegistrationSuperseded(id, intent) => {
                    state.put(id, RegistryGraph { intent, retired: false });
                },
                RegistryEvent::Retired(id, _) => {
                    let at = state.locate(id);
                    proof {
                        if at is None {
                            lemma_graphs_map_absent(state.graphs@, id);
                            assert(folded(all.take(done as int)).contains_key(event_graph(all[done as int])));
                        }
                    }
                    let i = at.unwrap();
                    let mut graphs: Vec<(u128, RegistryGraph<I>)> = Vec::new();
                    std::mem::swap(&mut graphs, &mut state.graphs);
                    let (gid, g) = graphs.remove(i);
                    let RegistryGraph { intent, retired: _ } = g;
                    proof {
                        lemma_graphs_map_index(before, i as int);
                    }
                    graphs.insert(i, (gid, RegistryGraph { intent, retired: true }));
                    state.graphs = graphs;
                    proof {
                        assert(state.graphs@ =~= before.update(i as int, (id, state.graphs@[i as int].1)));
                        lemma_graphs_map_update(before, i as int, state.graphs@[i as int].1);
                        assert forall|a: int, b: int| 0 <= a < b < state.graphs@.len() implies state.graphs@[a].0
                            != state.graphs@[b].0 by {
                            assert(state.graphs@[a].0 == before[a].0);
                            assert(state.graphs@[b].0 == before[b].0);
                        }
                    }
                },
            }
            done = done + 1;
        }
        assert(all.take(done as int) =~= all);
        state
    }

    fn put(&mut self, id: u128, g: RegistryGraph<I>)
        requires
            ids_unique(old(self).graphs@),
        ensures
            ids_unique(final(self).graphs@),
            final(self).tail == old(self).tail,
            graphs_map(final(self).graphs@) == graphs_map(old(self).graphs@).insert(id, (g.intent, g.retired)),
    {
        let ghost view = (g.intent, g.retired);
        match self.locate(id) {
            Some(i) => {
                let ghost before = self.graphs@;
                let mut graphs: Vec<(u128, RegistryGraph<I>)> = Vec::new();
                std::mem::swap(&mut graphs, &mut self.graphs);
                let _ = graphs.remove(i);
                graphs.insert(i, (id, g));
                self.graphs = graphs;
                proof {
                    assert(self.graphs@ =~= before.update(i as int, (id, self.graphs@[i as int].1)));
                    lemma_graphs_map_update(before, i as int, self.graphs@[i as int].1);
                    assert forall|a: int, b: int| 0 <= a < b < self.graphs@.len() implies self.graphs@[a].0
                        != self.graphs@[b].0 by {
                        assert(self.graphs@[a].0 == before[a].0);
                        assert(self.graphs@[b].0 == before[b].0);
                    }
                }
            },
            None => {
                let ghost before = self.graphs@;
                let mut graphs: Vec<(u128, RegistryGraph<I>)> = Vec::new();
                std::mem::swap(&mut graphs, &mut self.graphs);
                graphs.push((id, g));
                proof {
                    assert(graphs@.drop_last() =~= before);
                }
                self.graphs = graphs;
            },
        }
    }
}

/// A graph whose registration was superseded is active again under the new
/// intent, and a retired graph keeps its last intent: retiring after
/// registering leaves the intent and marks the graph retired.
pub proof fn law_registration_lifecycle<I>(
    events: Seq<RegistryEvent<I>>,
    id: u128,
    first: I,
    second: I,
    generation: u64,
)
    ensures
        folded(events.push(RegistryEvent::Registered(id, first)).push(RegistryEvent::Retired(id, generation)))[id] == (first, true),
        folded(
            events.push(RegistryEvent::Registered(id, first)).push(RegistryEvent::Retired(id, generation)).push(
                RegistryEvent::RegistrationSuperseded(id, second),
            ),
        )[id] == (second, false),
{
    let a = events.push(RegistryEvent::Registered(id, first));
    let b = a.push(RegistryEvent::Retired(id, generation));
    let c = b.push(RegistryEvent::RegistrationSuperseded(id, second));
    assert(a.drop_last() =~= events);
    assert(b.drop_last() =~= a);
    assert(c.drop_last() =~= b);
    assert(folded(a) == folded(events).insert(id, (first, false)));
    assert(folded(a)[id] == (first, false));
    assert(folded(b) == folded(a).insert(id, (first, true)));
}

} // verus!
