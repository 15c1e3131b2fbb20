//! The orchestrator's state as its journal of core events materialises it:
//! per graph, the current intent, the accepted plan, the output records,
//! the latest report of each controller, the publications, the stall and
//! whether the graph is retired.

use vstd::prelude::*;

use crate::resource::ContentDigest;

verus! {

/// An output record: generation, component, output name, value, and the
/// resource output it was observed on (none for a static output).
#[derive(Clone, Debug, PartialEq, Eq)]
pub struct StoredOutput {
    pub generation: u64,
    pub component: String,
    pub name: String,
    pub value: String,
    pub source: Option<(u128, String)>,
}

/// The key of an output record.
pub type OutputKey = (u64, Seq<char>, Seq<char>);

/// The value of an output record.
pub type OutputValue = (Seq<char>, Option<(u128, Seq<char>)>);

/// The key of a record.
pub open spec fn output_key(o: StoredOutput) -> OutputKey {
    (o.generation, o.component@, o.name@)
}

/// The value of a record.
pub open spec fn output_value(o: StoredOutput) -> OutputValue {
    (
        o.value@,
        match o.source {
            Some((id, output)) => Some((id, output@)),
            None => None,
        },
    )
}

/// Output records written in order, a later one of a key replacing an
/// earlier one.
pub open spec fn output_map(s: Seq<StoredOutput>) -> Map<OutputKey, OutputValue>
    decreases s.len(),
{
    if s.len() == 0 {
        Map::empty()
    } else {
        output_map(s.drop_last()).insert(output_key(s.last()), output_value(s.last()))
    }
}

/// Reports written in order, a later one of a controller replacing an
/// earlier one.
pub open spec fn report_map(s: Seq<(String, Vec<u8>)>) -> Map<Seq<char>, Seq<u8>>
    decreases s.len(),
{
    if s.len() == 0 {
        Map::empty()
    } else {
        report_map(s.drop_last()).insert(s.last().0@, s.last().1@)
    }
}

/// Publication ids recorded in order.
pub open spec fn id_set(s: Seq<u128>) -> Set<u128>
    decreases s.len(),
{
    if s.len() == 0 {
        Set::empty()
    } else {
        id_set(s.drop_last()).insert(s.last())
    }
}

/// One event of the orchestrator core. Intents, plans, reports and stalls
/// are carried as their canonical bytes or digest; this state only stores
/// them.
#[derive(Clone, Debug)]
pub enum CoreEvent {
    GraphCreated { graph_id: u128, generation: u64, intent: Vec<u8> },
    GraphUpdated { graph_id: u128, generation: u64, intent: Vec<u8> },
    PlanAccepted { graph_id: u128, generation: u64, plan: ContentDigest },
    ControllerReported { graph_id: u128, controller: String, report: Vec<u8> },
    ComponentOutputsReplaced { graph_id: u128, generation: u64, component: String, outputs: Vec<StoredOutput> },
    OutputsPublished { graph_id: u128, generation: u64, publication: u128, outputs: Vec<StoredOutput> },
    StallDetected { graph_id: u128, stall: Vec<u8> },
    GraphRetired { graph_id: u128, last_generation: u64 },
}

/// The graph an event is about.
pub open spec fn event_graph(e: CoreEvent) -> u128 {
    match e {
        CoreEvent::GraphCreated { graph_id, .. } => graph_id,
        CoreEvent::GraphUpdated { graph_id, .. } => graph_id,
        CoreEvent::PlanAccepted { graph_id, .. } => graph_id,
        CoreEvent::ControllerReported { graph_id, .. } => graph_id,
        CoreEvent::ComponentOutputsReplaced { graph_id, .. } => graph_id,
        CoreEvent::OutputsPublished { graph_id, .. } => graph_id,
        CoreEvent::StallDetected { graph_id, .. } => graph_id,
        CoreEvent::GraphRetired { graph_id, .. } => graph_id,
    }
}

/// A graph's materialised state as plain values.
pub struct GraphView {
    pub generation: u64,
    pub intent: Seq<u8>,
    pub plan: Option<(u64, ContentDigest)>,
    pub outputs: Map<OutputKey, OutputValue>,
    pub reports: Map<Seq<char>, Seq<u8>>,
    pub publications: Set<u128>,
    pub stall: Option<Seq<u8>>,
    pub retired: bool,
}

/// A graph's materialised state.
#[derive(Debug)]
pub struct GraphState {
    pub graph_id: u128,
    generation: u64,
    intent: Vec<u8>,
    plan: Option<(u64, ContentDigest)>,
    outputs: Vec<StoredOutput>,
    reports: Vec<(String, Vec<u8>)>,
    publications: Vec<u128>,
    stall: Option<Vec<u8>>,
    retired: bool,
}

/// A graph's state as plain values.
pub closed spec fn graph_view(g: GraphState) -> GraphView {
    GraphView {
        generation: g.generation,
        intent: g.intent@,
        plan: g.plan,
        outputs: output_map(g.outputs@),
        reports: report_map(g.reports@),
        publications: id_set(g.publications@),
        stall: match g.stall {
            Some(s) => Some(s@),
            None => None,
        },
        retired: g.retired,
    }
}

/// The graphs by id, a later entry of an id replacing an earlier one.
pub closed spec fn graph_map(s: Seq<GraphState>) -> Map<u128, GraphView>
    decreases s.len(),
{
    if s.len() == 0 {
        Map::empty()
    } else {
        graph_map(s.drop_last()).insert(s.last().graph_id, graph_view(s.last()))
    }
}

/// An event can be applied to `m`: a graph is created once; every other
/// event is about an existing graph; an update moves to the next
/// generation; a plan, a replacement, a publication and a retirement are of
/// the current generation.
pub open spec fn applicable(m: Map<u128, GraphView>, e: CoreEvent) -> bool {
    match e {
        CoreEvent::GraphCreated { graph_id, .. } => !m.contains_key(graph_id),
        CoreEvent::GraphUpdated { graph_id, generation, .. } => m.contains_key(graph_id) && generation
            == m[graph_id].generation + 1,
        CoreEvent::PlanAccepted { graph_id, generation, .. } => m.contains_key(graph_id) && generation
            == m[graph_id].generation,
        CoreEvent::ControllerReported { graph_id, .. } => m.contains_key(graph_id),
        CoreEvent::ComponentOutputsReplaced { graph_id, generation, .. } => m.contains_key(graph_id) && generation
            == m[graph_id].generation,
        CoreEvent::OutputsPublished { graph_id, generation, .. } => m.contains_key(graph_id) && generation
            == m[graph_id].generation,
        CoreEvent::StallDetected { graph_id, .. } => m.contains_key(graph_id),
        CoreEvent::GraphRetired { graph_id, last_generation } => m.contains_key(graph_id) && last_generation
            == m[graph_id].generation,
    }
}

/// `outputs` with every record of `component` at `generation` removed and
/// `written` written in order.
pub open spec fn replaced_outputs(
    outputs: Map<OutputKey, OutputValue>,
    generation: u64,
    component: Seq<char>,
    written: Seq<StoredOutput>,
) -> Map<OutputKey, OutputValue> {
    outputs.remove_keys(Set::new(|k: OutputKey| k.0 == generation && k.1 == component)).union_prefer_right(
        output_map(written),
    )
}

/// The state of a graph after an applicable event about it.
pub open spec fn applied_graph(g: GraphView, e: CoreEvent) -> GraphView {
    match e {
        CoreEvent::GraphCreated { generation, intent, .. } => GraphView {
            generation,
            intent: intent@,
            plan: None,
            outputs: Map::empty(),
            reports: Map::empty(),
            publications: Set::empty(),
            stall: None,
            retired: false,
        },
        CoreEvent::GraphUpdated { generation, intent, .. } => GraphView {
            generation,
            intent: intent@,
            stall: None,
            ..g
        },
        CoreEvent::PlanAccepted { generation, plan, .. } => GraphView { plan: Some((generation, plan)), stall: None, ..g },
        CoreEvent::ControllerReported { controller, report, .. } => GraphView {
            reports: g.reports.insert(controller@, report@),
            ..g
        },
        CoreEvent::ComponentOutputsReplaced { generation, component, outputs, .. } => GraphView {
            outputs: replaced_outputs(g.outputs, generation, component@, outputs@),
            ..g
        },
        CoreEvent::OutputsPublished { publication, outputs, .. } => GraphView {
            publications: g.publications.insert(publication),
            outputs: g.outputs.union_prefer_right(output_map(outputs@)),
            ..g
        },
        CoreEvent::StallDetected { stall, .. } => GraphView { stall: Some(stall@), ..g },
        CoreEvent::GraphRetired { .. } => GraphView { retired: true, ..g },
    }
}

/// The state after an applicable event.
pub open spec fn applied(m: Map<u128, GraphView>, e: CoreEvent) -> Map<u128, GraphView> {
    let id = event_graph(e);
    m.insert(id, applied_graph(if m.contains_key(id) { m[id] } else { arbitrary() }, e))
}

/// The state that `events` materialise from nothing, when each applies in
/// turn.
pub open spec fn replay(events: Seq<CoreEvent>) -> Map<u128, GraphView>
    decreases events.len(),
{
    if events.len() == 0 {
        Map::empty()
    } else {
        applied(replay(events.drop_last()), events.last())
    }
}

/// Every event applies to the state the events before it materialise.
pub open spec fn replayable(events: Seq<CoreEvent>) -> bool {
    forall|i: int| 0 <= i < events.len() ==> #[trigger] applicable(replay(events.take(i)), events[i])
}

// === Lemmas on the maps ===

/// The keys of the records of `component` at `generation`.
pub open spec fn component_keys(generation: u64, component: Seq<char>) -> Set<OutputKey> {
    Set::new(|k: OutputKey| k.0 == generation && k.1 == component)
}

/// No two graphs share an id.
pub closed spec fn ids_unique(s: Seq<GraphState>) -> bool {
    forall|i: int, j: int| 0 <= i < j < s.len() ==> s[i].graph_id != s[j].graph_id
}

proof fn lemma_graph_map_has(s: Seq<GraphState>, id: u128)
    requires
        ids_unique(s),
    ensures
        graph_map(s).contains_key(id) <==> exists|i: int| 0 <= i < s.len() && s[i].graph_id == id,
        forall|i: int| 0 <= i < s.len() && s[i].graph_id == id ==> graph_map(s)[id] == graph_view(s[i]),
    decreases s.len(),
{
    if s.len() > 0 {
        let t = s.drop_last();
        assert(ids_unique(t));
        lemma_graph_map_has(t, id);
        if exists|i: int| 0 <= i < t.len() && t[i].graph_id == id {
            let i = choose|i: int| 0 <= i < t.len() && t[i].graph_id == id;
            assert(s[i].graph_id == id);
        }
        if exists|i: int| 0 <= i < s.len() && s[i].graph_id == id {
            let i = choose|i: int| 0 <= i < s.len() && s[i].graph_id == id;
            if i < s.len() - 1 {
                assert(t[i].graph_id == id);
            }
        }
        assert forall|i: int| 0 <= i < s.len() && s[i].graph_id == id implies graph_map(s)[id] == graph_view(s[i]) by {
            if i < s.len() - 1 {
                assert(t[i] == s[i]);
                assert(s.last().graph_id != id);
            }
        }
    }
}

proof fn lemma_graph_map_update(s: Seq<GraphState>, p: int, g: GraphState)
    requires
        ids_unique(s),
        0 <= p < s.len(),
        s[p].graph_id == g.graph_id,
    ensures
        ids_unique(s.update(p, g)),
        graph_map(s.update(p, g)) == graph_map(s).insert(g.graph_id, graph_view(g)),
    decreases s.len(),
{
    let u = s.update(p, g);
    assert(ids_unique(u)) by {
        assert forall|i: int, j: int| 0 <= i < j < u.len() implies u[i].graph_id != u[j].graph_id by {
            assert(u[i].graph_id == s[i].graph_id && u[j].graph_id == s[j].graph_id);
        }
    }
    let t = s.drop_last();
    if p == s.len() - 1 {
        assert(u.drop_last() =~= t);
        assert(graph_map(u) =~= graph_map(s).insert(g.graph_id, graph_view(g)));
    } else {
        assert(ids_unique(t));
        lemma_graph_map_update(t, p, g);
        assert(u.drop_last() =~= t.update(p, g));
        assert(u.last() == s.last());
        assert(s.last().graph_id != g.graph_id);
        assert(graph_map(u) =~= graph_map(s).insert(g.graph_id, graph_view(g)));
    }
}

// === Applying events ===

fn copy_output(o: &StoredOutput) -> (c: StoredOutput)
    ensures
        output_key(c) == output_key(*o),
        output_value(c) == output_value(*o),
{
    StoredOutput {
        generation: o.generation,
        component: o.component.clone(),
        name: o.name.clone(),
        value: o.value.clone(),
        source: match &o.source {
            Some((id, output)) => Some((*id, output.clone())),
            None => None,
        },
    }
}

fn copy_bytes(v: &Vec<u8>) -> (c: Vec<u8>)
    ensures
        c@ == v@,
{
    let c = v.clone();
    assert(c@ =~= v@);
    c
}

/// Writes `written` after `outputs`, in order.
fn write_outputs(outputs: &mut Vec<StoredOutput>, written: &Vec<StoredOutput>)
    ensures
        output_map(final(outputs)@) == output_map(old(outputs)@).union_prefer_right(output_map(written@)),
{
    let ghost base = output_map(outputs@);
    let mut j: usize = 0;
    assert(output_map(written@.take(0)) =~= Map::<OutputKey, OutputValue>::empty());
    assert(base.union_prefer_right(Map::<OutputKey, OutputValue>::empty()) =~= base);
    while j < written.len()
        invariant
            j <= written@.len(),
            output_map(outputs@) == base.union_prefer_right(output_map(written@.take(j as int))),
        decreases written@.len() - j,
    {
        let ghost before = outputs@;
        outputs.push(copy_output(&written[j]));
        assert(outputs@.drop_last() =~= before);
        assert(written@.take(j + 1).drop_last() =~= written@.take(j as int));
        assert(written@.take(j + 1).last() == written@[j as int]);
        assert(output_map(outputs@) =~= base.union_prefer_right(output_map(written@.take(j + 1))));
        j = j + 1;
    }
    assert(written@.take(written@.len() as int) =~= written@);
}

/// Removes the records of `component` at `generation`.
fn drop_component(outputs: &mut Vec<StoredOutput>, generation: u64, component: &str)
    ensures
        output_map(final(outputs)@) == output_map(old(outputs)@).remove_keys(component_keys(generation, component@)),
{
    let ghost keys = component_keys(generation, component@);
    let ghost all = outputs@;
    let mut kept: Vec<StoredOutput> = Vec::new();
    let mut i: usize = 0;
    assert(all.take(0) =~= Seq::<StoredOutput>::empty());
    assert(output_map(all.take(0)).remove_keys(keys) =~= Map::<OutputKey, OutputValue>::empty());
    while i < outputs.len()
        invariant
            all == outputs@,
            i <= all.len(),
            keys == component_keys(generation, component@),
            output_map(kept@) == output_map(all.take(i as int)).remove_keys(keys),
        decreases all.len() - i,
    {
        let o = &outputs[i];
        assert(all.take(i + 1).drop_last() =~= all.take(i as int));
        assert(all.take(i + 1).last() == all[i as int]);
        let ghost k = output_key(*o);
        if o.generation == generation && crate::text::text_equal(o.component.as_str(), component) {
            assert(keys.contains(k));
            assert(output_map(all.take(i + 1)).remove_keys(keys) =~= output_map(all.take(i as int)).remove_keys(keys));
        } else {
            assert(!keys.contains(k));
            let ghost before = kept@;
            kept.push(copy_output(o));
            assert(kept@.drop_last() =~= before);
            assert(output_map(kept@) =~= output_map(all.take(i + 1)).remove_keys(keys));
        }
        i = i + 1;
    }
    assert(all.take(all.len() as int) =~= all);
    *outputs = kept;
}

impl View for GraphState {
    type V = GraphView;

    closed spec fn view(&self) -> GraphView {
        graph_view(*self)
    }
}

impl GraphState {
    fn created(graph_id: u128, generation: u64, intent: &Vec<u8>) -> (g: GraphState)
        ensures
            g.graph_id == graph_id,
            graph_view(g) == applied_graph(arbitrary(), CoreEvent::GraphCreated { graph_id, generation, intent: *intent }),
    {
        let g = GraphState {
            graph_id,
            generation,
            intent: copy_bytes(intent),
            plan: None,
            outputs: Vec::new(),
            reports: Vec::new(),
            publications: Vec::new(),
            stall: None,
            retired: false,
        };
        assert(output_map(g.outputs@) =~= Map::<OutputKey, OutputValue>::empty());
        assert(report_map(g.reports@) =~= Map::<Seq<char>, Seq<u8>>::empty());
        assert(id_set(g.publications@) =~= Set::<u128>::empty());
        g
    }

    fn apply_event(&mut self, e: &CoreEvent)
        requires
            event_graph(*e) == old(self).graph_id,
            !(e is GraphCreated),
        ensures
            final(self).graph_id == old(self).graph_id,
            graph_view(*final(self)) == applied_graph(graph_view(*old(self)), *e),
    {
        match e {
            CoreEvent::GraphCreated { .. } => {},
            CoreEvent::GraphUpdated { generation, intent, .. } => {
                self.generation = *generation;
                self.intent = copy_bytes(intent);
                self.stall = None;
            },
            CoreEvent::PlanAccepted { generation, plan, .. } => {
                self.plan = Some((*generation, *plan));
                self.stall = None;
            },
            CoreEvent::ControllerReported { controller, report, .. } => {
                let ghost before = self.reports@;
                self.reports.push((controller.clone(), copy_bytes(report)));
                assert(self.reports@.drop_last() =~= before);
            },
            CoreEvent::ComponentOutputsReplaced { generation, component, outputs, .. } => {
                drop_component(&mut self.outputs, *generation, component.as_str());
                write_outputs(&mut self.outputs, outputs);
            },
            CoreEvent::OutputsPublished { publication, outputs, .. } => {
                let ghost before = self.publications@;
                self.publications.push(*publication);
                assert(self.publications@.drop_last() =~= before);
                write_outputs(&mut self.outputs, outputs);
            },
            CoreEvent::StallDetected { stall, .. } => {
                self.stall = Some(copy_bytes(stall));
            },
            CoreEvent::GraphRetired { .. } => {
                self.retired = true;
            },
        }
    }

    /// The current generation.
    pub fn generation(&self) -> (g: u64)
        ensures
            g == self@.generation,
    {
        self.generation
    }

    /// Whether the graph is retired.
    pub fn is_retired(&self) -> (r: bool)
        ensures
            r == self@.retired,
    {
        self.retired
    }

    /// The accepted plan: its generation and digest.
    pub fn plan(&self) -> (p: Option<(u64, ContentDigest)>)
        ensures
            p == self@.plan,
    {
        self.plan
    }

    /// The output records, a later one of a key replacing an earlier one.
    pub fn outputs(&self) -> (o: &Vec<StoredOutput>)
        ensures
            output_map(o@) == self@.outputs,
    {
        &self.outputs
    }

    /// Whether a stall is recorded.
    pub fn is_stalled(&self) -> (s: bool)
        ensures
            s == (self@.stall is Some),
    {
        self.stall.is_some()
    }
}

/// The materialised state of every graph.
#[derive(Debug)]
pub struct MaterializedCore {
    graphs: Vec<GraphState>,
}

impl View for MaterializedCore {
    type V = Map<u128, GraphView>;

    closed spec fn view(&self) -> Map<u128, GraphView> {
        graph_map(self.graphs@)
    }
}

impl MaterializedCore {
    #[verifier::type_invariant]
    closed spec fn well_formed(&self) -> bool {
        ids_unique(self.graphs@)
    }

    /// No graph.
    pub fn new() -> (core: Self)
        ensures
            core@ == Map::<u128, GraphView>::empty(),
    {
        MaterializedCore { graphs: Vec::new() }
    }

    fn position(&self, graph_id: u128) -> (p: Option<usize>)
        ensures
            p matches Some(i) ==> i < self.graphs@.len() && self.graphs@[i as int].graph_id == graph_id,
            p is None ==> forall|i: int| 0 <= i < self.graphs@.len() ==> self.graphs@[i].graph_id != graph_id,
    {
        let mut i: usize = 0;
        while i < self.graphs.len()
            invariant
                i <= self.graphs@.len(),
                forall|k: int| 0 <= k < i ==> self.graphs@[k].graph_id != graph_id,
            decreases self.graphs@.len() - i,
        {
            if self.graphs[i].graph_id == graph_id {
                return Some(i);
            }
            i = i + 1;
        }
        None
    }

    /// The state of a graph, if it exists.
    pub fn graph(&self, graph_id: u128) -> (g: Option<&GraphState>)
        ensures
            g matches Some(s) ==> self@.contains_key(graph_id) && s@ == self@[graph_id],
            g is None ==> !self@.contains_key(graph_id),
    {
        proof {
            use_type_invariant(self);
            lemma_graph_map_has(self.graphs@, graph_id);
        }
        match self.position(graph_id) {
            Some(i) => Some(&self.graphs[i]),
            None => None,
        }
    }

    /// Applies one event: a created graph starts with its intent and
    /// nothing else; an update takes the new intent and clears the stall; an
    /// accepted plan is kept and clears the stall; a report replaces the
    /// controller's previous one; a replacement removes the component's
    /// records of the generation and writes the new ones; a publication is
    /// recorded with its records; a stall is kept; a retirement marks the
    /// graph.
    pub fn apply(&mut self, event: &CoreEvent)
        requires
            applicable(old(self)@, *event),
        ensures
            final(self)@ == applied(old(self)@, *event),
    {
        proof {
            use_type_invariant(&*self);
        }
        let id = match event {
            CoreEvent::GraphCreated { graph_id, .. } => *graph_id,
            CoreEvent::GraphUpdated { graph_id, .. } => *graph_id,
            CoreEvent::PlanAccepted { graph_id, .. } => *graph_id,
            CoreEvent::ControllerReported { graph_id, .. } => *graph_id,
            CoreEvent::ComponentOutputsReplaced { graph_id, .. } => *graph_id,
            CoreEvent::OutputsPublished { graph_id, .. } => *graph_id,
            CoreEvent::StallDetected { graph_id, .. } => *graph_id,
            CoreEvent::GraphRetired { graph_id, .. } => *graph_id,
        };
        let ghost m = self@;
        proof {
            lemma_graph_map_has(self.graphs@, id);
        }
        let mut graphs: Vec<GraphState> = Vec::new();
        std::mem::swap(&mut graphs, &mut self.graphs);
        if let CoreEvent::GraphCreated { graph_id, generation, intent } = event {
            let g = GraphState::created(*graph_id, *generation, intent);
            let ghost before = graphs@;
            graphs.push(g);
            proof {
                assert(graphs@.drop_last() =~= before);
                assert forall|i: int, j: int| 0 <= i < j < graphs@.len() implies graphs@[i].graph_id
                    != graphs@[j].graph_id by {
                    if j == graphs@.len() - 1 {
                        assert(graphs@[i] == before[i]);
                    } else {
                        assert(graphs@[i] == before[i] && graphs@[j] == before[j]);
                    }
                }
                assert(graph_map(graphs@) =~= applied(m, *event));
            }
            self.graphs = graphs;
            return;
        }
        let mut p: usize = 0;
        while p < graphs.len() && graphs[p].graph_id != id
            invariant
                p <= graphs@.len(),
                forall|k: int| 0 <= k < p ==> graphs@[k].graph_id != id,
            decreases graphs@.len() - p,
        {
            p = p + 1;
        }
        if p == graphs.len() {
            // Ruled out: an applicable event is about an existing graph.
            self.graphs = graphs;
            return;
        }
        let ghost before = graphs@;
        let mut g = graphs.remove(p);
        g.apply_event(event);
        graphs.insert(p, g);
        proof {
            assert(graphs@ =~= before.update(p as int, g));
            lemma_graph_map_update(before, p as int, g);
            assert(graph_map(graphs@) =~= applied(m, *event));
        }
        self.graphs = graphs;
    }

    /// The state that `events` materialise, applied in order to no graph.
    pub fn fold(events: &Vec<CoreEvent>) -> (core: Self)
        requires
            replayable(events@),
        ensures
            core@ == replay(events@),
    {
        let mut core = MaterializedCore::new();
        let mut i: usize = 0;
        assert(events@.take(0) =~= Seq::<CoreEvent>::empty());
        while i < events.len()
            invariant
                i <= events@.len(),
                replayable(events@),
                core@ == replay(events@.take(i as int)),
            decreases events@.len() - i,
        {
            assert(applicable(replay(events@.take(i as int)), events@[i as int]));
            core.apply(&events[i]);
            assert(events@.take(i + 1).drop_last() =~= events@.take(i as int));
            assert(events@.take(i + 1).last() == events@[i as int]);
            i = i + 1;
        }
        assert(events@.take(events@.len() as int) =~= events@);
        core
    }
}

} // verus!

verus! {

/// What each event does to its graph, field by field, and that it leaves
/// every other graph as it was. A new graph starts with its intent and
/// nothing else. A new intent or an accepted plan clears the stall; an
/// intent update moves to the event's generation and keeps the plan,
/// outputs, reports, publications and retirement; an accepted plan keeps
/// the generation. A stall is recorded as detected; a retirement marks the
/// graph and keeps the rest; a report replaces only its controller's;
/// a publication is added to the publications.
pub proof fn law_event_effects(m: Map<u128, GraphView>, e: CoreEvent, other: u128)
    requires
        applicable(m, e),
        other != event_graph(e),
    ensures
        applied(m, e).contains_key(event_graph(e)),
        applied(m, e).contains_key(other) == m.contains_key(other),
        m.contains_key(other) ==> applied(m, e)[other] == m[other],
        ({
            let id = event_graph(e);
            let after = applied(m, e)[id];
            match e {
                CoreEvent::GraphCreated { generation, intent, .. } => {
                    &&& after.generation == generation
                    &&& after.intent == intent@
                    &&& after.plan is None
                    &&& after.stall is None
                    &&& !after.retired
                    &&& after.outputs.dom().len() == 0
                    &&& after.reports.dom().len() == 0
                    &&& after.publications.len() == 0
                },
                CoreEvent::GraphUpdated { generation, intent, .. } => {
                    let before = m[id];
                    &&& after.generation == generation
                    &&& after.generation == before.generation + 1
                    &&& after.intent == intent@
                    &&& after.stall is None
                    &&& after.plan == before.plan
                    &&& after.outputs == before.outputs
                    &&& after.reports == before.reports
                    &&& after.publications == before.publications
                    &&& after.retired == before.retired
                },
                CoreEvent::PlanAccepted { generation, plan, .. } => {
                    let before = m[id];
                    &&& after.plan == Some((generation, plan))
                    &&& after.stall is None
                    &&& after.generation == before.generation
                    &&& after.intent == before.intent
                    &&& after.outputs == before.outputs
                    &&& after.reports == before.reports
                    &&& after.publications == before.publications
                    &&& after.retired == before.retired
                },
                CoreEvent::StallDetected { stall, .. } => {
                    let before = m[id];
                    &&& after.stall == Some(stall@)
                    &&& after.plan == before.plan
                    &&& after.generation == before.generation
                    &&& after.intent == before.intent
                    &&& after.outputs == before.outputs
                    &&& after.reports == before.reports
                    &&& after.publications == before.publications
                    &&& after.retired == before.retired
                },
                CoreEvent::GraphRetired { .. } => {
                    let before = m[id];
                    &&& after.retired
                    &&& after.generation == before.generation
                    &&& after.intent == before.intent
                    &&& after.plan == before.plan
                    &&& after.outputs == before.outputs
                    &&& after.reports == before.reports
                    &&& after.publications == before.publications
                    &&& after.stall == before.stall
                },
                CoreEvent::ControllerReported { controller, report, .. } => {
                    let before = m[id];
                    &&& after.reports.contains_key(controller@)
                    &&& after.reports[controller@] == report@
                    &&& forall|c: Seq<char>| c != controller@ ==> after.reports.contains_key(c) == before.reports.contains_key(c)
                        && (before.reports.contains_key(c) ==> after.reports[c] == before.reports[c])
                    &&& after.stall == before.stall
                    &&& after.plan == before.plan
                    &&& after.generation == before.generation
                    &&& after.outputs == before.outputs
                    &&& after.publications == before.publications
                    &&& after.retired == before.retired
                },
                CoreEvent::OutputsPublished { publication, .. } => {
                    let before = m[id];
                    &&& after.publications == before.publications.insert(publication)
                    &&& after.stall == before.stall
                    &&& after.generation == before.generation
                    &&& after.plan == before.plan
                    &&& after.reports == before.reports
                    &&& after.retired == before.retired
                },
                CoreEvent::ComponentOutputsReplaced { .. } => {
                    let before = m[id];
                    &&& after.stall == before.stall
                    &&& after.plan == before.plan
                    &&& after.publications == before.publications
                    &&& after.generation == before.generation
                    &&& after.reports == before.reports
                    &&& after.retired == before.retired
                },
            }
        }),
{
    let id = event_graph(e);
    if let CoreEvent::GraphCreated { .. } = e {
        let after = applied(m, e)[id];
        assert(after.outputs.dom() =~= Set::<OutputKey>::empty());
        assert(after.reports.dom() =~= Set::<Seq<char>>::empty());
    }
}

/// Replacing a component's outputs at a generation removes every record of
/// that component at that generation that is not written again, writes the
/// new records, and keeps every other record.
pub proof fn law_outputs_replaced(
    outputs: Map<OutputKey, OutputValue>,
    generation: u64,
    component: Seq<char>,
    written: Seq<StoredOutput>,
    key: OutputKey,
)
    ensures
        !output_map(written).contains_key(key) && (key.0 != generation || key.1 != component) ==> (replaced_outputs(
            outputs,
            generation,
            component,
            written,
        ).contains_key(key) == outputs.contains_key(key) && (outputs.contains_key(key) ==> replaced_outputs(
            outputs,
            generation,
            component,
            written,
        )[key] == outputs[key])),
        !output_map(written).contains_key(key) && key.0 == generation && key.1 == component ==> !replaced_outputs(
            outputs,
            generation,
            component,
            written,
        ).contains_key(key),
        output_map(written).contains_key(key) ==> replaced_outputs(outputs, generation, component, written)[key]
            == output_map(written)[key],
{
}

/// Output records written in order: a key is present exactly when some
/// record has it.
pub proof fn law_written_keys(s: Seq<StoredOutput>, key: OutputKey)
    ensures
        output_map(s).contains_key(key) <==> exists|i: int| 0 <= i < s.len() && output_key(#[trigger] s[i]) == key,
    decreases s.len(),
{
    if s.len() > 0 {
        let t = s.drop_last();
        law_written_keys(t, key);
        if exists|i: int| 0 <= i < t.len() && output_key(#[trigger] t[i]) == key {
            let i = choose|i: int| 0 <= i < t.len() && output_key(#[trigger] t[i]) == key;
            assert(s[i] == t[i]);
        }
        if exists|i: int| 0 <= i < s.len() && output_key(#[trigger] s[i]) == key {
            let i = choose|i: int| 0 <= i < s.len() && output_key(#[trigger] s[i]) == key;
            if i < s.len() - 1 {
                assert(t[i] == s[i]);
            }
        }
    }
}

/// Output records written in order: a key's value is that of the last
/// record with that key.
pub proof fn law_last_write_wins(s: Seq<StoredOutput>, i: int)
    requires
        0 <= i < s.len(),
        forall|j: int| i < j < s.len() ==> output_key(#[trigger] s[j]) != output_key(s[i]),
    ensures
        output_map(s).contains_key(output_key(s[i])),
        output_map(s)[output_key(s[i])] == output_value(s[i]),
    decreases s.len(),
{
    let t = s.drop_last();
    if i < s.len() - 1 {
        assert(t[i] == s[i]);
        assert(output_key(s[s.len() - 1]) != output_key(s[i]));
        assert forall|j: int| i < j < t.len() implies output_key(#[trigger] t[j]) != output_key(t[i]) by {
            assert(t[j] == s[j]);
        }
        law_last_write_wins(t, i);
    }
}

} // verus!
