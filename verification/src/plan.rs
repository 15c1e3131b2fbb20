//! The orchestrator's decisions around a graph's plan: which controller is
//! sent which resources when a plan replaces its predecessor or a graph is
//! retired, which blocked components wait on each other in a cycle, and
//! whether a controller report is current, complete and honest about its
//! observed outputs.

use vstd::prelude::*;

use crate::evaluation::OutputRef;
use crate::controller::ControllerReport;
use crate::cycles::{acyclic, closed_graph, find_cycle, graph_of, has_edge, is_cycle};
use crate::resource::{copy_resources, find_declaration, first_observed, resources_view, ContentDigest, Resource, ResourceView};
use crate::text::text_equal;
use crate::textset::{lemma_ascending_unique, strictly_ascending, texts, TextSet};

verus! {

// === Grouping resources by controller ===

/// The resources of `rs` owned by controller `c`, in order.
pub open spec fn owned_by(rs: Seq<ResourceView>, c: Seq<char>) -> Seq<ResourceView>
    decreases rs.len(),
{
    if rs.len() == 0 {
        Seq::empty()
    } else {
        let before = owned_by(rs.drop_last(), c);
        if rs.last().controller == c {
            before.push(rs.last())
        } else {
            before
        }
    }
}

/// The controllers that own some resource of `rs`.
pub open spec fn controllers_of(rs: Seq<ResourceView>) -> Set<Seq<char>> {
    Set::new(|c: Seq<char>| exists|i: int| 0 <= i < rs.len() && rs[i].controller == c)
}

/// The controller names of a grouping, in order.
pub open spec fn group_names(g: Seq<(Seq<char>, Seq<ResourceView>)>) -> Seq<Seq<char>> {
    g.map_values(|e: (Seq<char>, Seq<ResourceView>)| e.0)
}

/// `g` groups `rs` by controller: one group per controller, in ascending
/// order of controller name, each holding that controller's resources in
/// their order in `rs`.
pub open spec fn is_grouping(g: Seq<(Seq<char>, Seq<ResourceView>)>, rs: Seq<ResourceView>) -> bool {
    &&& strictly_ascending(group_names(g))
    &&& group_names(g).to_set() == controllers_of(rs)
    &&& forall|i: int| 0 <= i < g.len() ==> (#[trigger] g[i]).1 == owned_by(rs, g[i].0)
}

/// The grouping of `rs` by controller (there is exactly one).
pub open spec fn grouping(rs: Seq<ResourceView>) -> Seq<(Seq<char>, Seq<ResourceView>)> {
    choose|g: Seq<(Seq<char>, Seq<ResourceView>)>| is_grouping(g, rs)
}

/// Groups as plain values.
pub open spec fn groups_view(g: Seq<(String, Vec<Resource>)>) -> Seq<(Seq<char>, Seq<ResourceView>)> {
    g.map_values(|e: (String, Vec<Resource>)| (e.0@, resources_view(e.1@)))
}

proof fn lemma_grouping_unique(g: Seq<(Seq<char>, Seq<ResourceView>)>, h: Seq<(Seq<char>, Seq<ResourceView>)>, rs: Seq<ResourceView>)
    requires
        is_grouping(g, rs),
        is_grouping(h, rs),
    ensures
        g == h,
{
    lemma_ascending_unique(group_names(g), group_names(h));
    assert(g.len() == group_names(g).len());
    assert forall|i: int| 0 <= i < g.len() implies g[i] == h[i] by {
        assert(group_names(g)[i] == g[i].0);
        assert(group_names(h)[i] == h[i].0);
    }
    assert(g =~= h);
}

/// A grouping that `is_grouping` accepts is the grouping.
pub proof fn lemma_is_the_grouping(g: Seq<(Seq<char>, Seq<ResourceView>)>, rs: Seq<ResourceView>)
    requires
        is_grouping(g, rs),
    ensures
        grouping(rs) == g,
{
    lemma_grouping_unique(grouping(rs), g, rs);
}

/// A resource of `rs` is among those of its own controller.
pub proof fn lemma_owned_by_contains(rs: Seq<ResourceView>, k: int)
    requires
        0 <= k < rs.len(),
    ensures
        owned_by(rs, rs[k].controller).contains(rs[k]),
    decreases rs.len(),
{
    if k < rs.len() - 1 {
        lemma_owned_by_contains(rs.drop_last(), k);
        let x = owned_by(rs.drop_last(), rs[k].controller).index_of(rs[k]);
        if rs.last().controller == rs[k].controller {
            assert(owned_by(rs, rs[k].controller)[x] == rs[k]);
        }
    } else {
        let o = owned_by(rs, rs[k].controller);
        assert(o[o.len() - 1] == rs[k]);
    }
}

fn controllers(resources: &Vec<Resource>) -> (set: TextSet)
    ensures
        set@ == controllers_of(resources_view(resources@)),
{
    let ghost rv = resources_view(resources@);
    let mut set = TextSet::new();
    let n = resources.len();
    let mut i: usize = 0;
    while i < n
        invariant
            n == resources@.len(),
            rv == resources_view(resources@),
            i <= n,
            set@ == controllers_of(rv.take(i as int)),
        decreases n - i,
    {
        let ghost before = set@;
        set.insert(resources[i].controller.clone());
        proof {
            let t = rv.take(i + 1);
            assert(t[i as int] == rv[i as int]);
            assert forall|c: Seq<char>| set@.contains(c) <==> controllers_of(t).contains(c) by {
                if controllers_of(rv.take(i as int)).contains(c) {
                    let j = choose|j: int| 0 <= j < i && rv.take(i as int)[j].controller == c;
                    assert(t[j] == rv.take(i as int)[j]);
                }
                if controllers_of(t).contains(c) {
                    let j = choose|j: int| 0 <= j < t.len() && t[j].controller == c;
                    if j < i {
                        assert(rv.take(i as int)[j] == t[j]);
                    }
                }
            }
            assert(set@ =~= controllers_of(t));
        }
        i = i + 1;
    }
    assert(rv.take(n as int) =~= rv);
    set
}

fn owned(resources: &Vec<Resource>, controller: &str) -> (out: Vec<Resource>)
    ensures
        resources_view(out@) == owned_by(resources_view(resources@), controller@),
{
    let ghost rv = resources_view(resources@);
    let mut out: Vec<Resource> = Vec::new();
    let n = resources.len();
    let mut i: usize = 0;
    while i < n
        invariant
            n == resources@.len(),
            rv == resources_view(resources@),
            i <= n,
            resources_view(out@) == owned_by(rv.take(i as int), controller@),
        decreases n - i,
    {
        proof {
            assert(rv.take(i + 1).drop_last() =~= rv.take(i as int));
            assert(rv.take(i + 1).last() == rv[i as int]);
        }
        if text_equal(resources[i].controller.as_str(), controller) {
            let ghost before = out@;
            out.push(resources[i].copied());
            assert(resources_view(out@) =~= resources_view(before).push(rv[i as int]));
        }
        i = i + 1;
    }
    assert(rv.take(n as int) =~= rv);
    out
}

/// Groups `resources` by controller, in ascending order of controller name,
/// each group keeping the resources' order.
pub fn group_by_controller(resources: &Vec<Resource>) -> (groups: Vec<(String, Vec<Resource>)>)
    ensures
        is_grouping(groups_view(groups@), resources_view(resources@)),
        groups_view(groups@) == grouping(resources_view(resources@)),
{
    let ghost rv = resources_view(resources@);
    let names = controllers(resources).into_items();
    let ghost nt = texts(names@);
    let mut groups: Vec<(String, Vec<Resource>)> = Vec::new();
    let m = names.len();
    let mut k: usize = 0;
    while k < m
        invariant
            m == names@.len(),
            rv == resources_view(resources@),
            nt == texts(names@),
            k <= m,
            groups@.len() == k,
            forall|j: int| 0 <= j < k ==> (#[trigger] groups_view(groups@)[j]) == (nt[j], owned_by(rv, nt[j])),
        decreases m - k,
    {
        let members = owned(resources, names[k].as_str());
        let ghost before = groups@;
        let name = names[k].clone();
        assert(name@ == nt[k as int]);
        groups.push((name, members));
        proof {
            assert(groups@[k as int].0@ == nt[k as int]);
            assert(groups_view(groups@)[k as int] == (nt[k as int], owned_by(rv, nt[k as int])));
            assert forall|j: int| 0 <= j < k + 1 implies (#[trigger] groups_view(groups@)[j]) == (nt[j], owned_by(rv, nt[j])) by {
                if j < k {
                    assert(groups_view(before)[j] == (nt[j], owned_by(rv, nt[j])));
                    assert(groups@[j] == before[j]);
                }
            }
        }
        k = k + 1;
    }
    proof {
        let g = groups_view(groups@);
        assert(group_names(g) =~= nt);
        assert forall|i: int| 0 <= i < g.len() implies (#[trigger] g[i]).1 == owned_by(rv, g[i].0) by {
            assert(g[i] == (nt[i], owned_by(rv, nt[i])));
        }
        lemma_is_the_grouping(g, rv);
    }
    groups
}

// === Plans and controller effects ===

/// A component whose evaluation waits on outputs of other components.
#[derive(Debug)]
pub struct BlockedMarker {
    pub component: String,
    pub blocked_on: Vec<OutputRef>,
}

/// A graph generation's plan: the resources to hold and the components
/// that are still blocked, under the plan's digest.
#[derive(Debug)]
pub struct Plan {
    pub generation: u64,
    pub digest: ContentDigest,
    pub resources: Vec<Resource>,
    pub blocked: Vec<BlockedMarker>,
}

/// What a controller is asked to do with a graph's resources.
#[derive(Debug)]
pub enum EffectCommand {
    /// Converge the current plan's resources and clean up the superseded
    /// ones.
    Reconcile { plan_digest: ContentDigest, resources: Vec<Resource>, superseded: Vec<Resource> },
    /// Remove resources that the new plan no longer holds.
    Supersede { resources: Vec<Resource> },
    /// Remove the resources of a retired graph.
    Retire { resources: Vec<Resource> },
}

/// A command addressed to one controller about one graph generation.
#[derive(Debug)]
pub struct ControllerEffect {
    pub graph_id: u128,
    pub generation: u64,
    pub controller: String,
    pub command: EffectCommand,
}

/// An effect's command as plain values.
pub enum EffectCommandView {
    Reconcile(ContentDigest, Seq<ResourceView>, Seq<ResourceView>),
    Supersede(Seq<ResourceView>),
    Retire(Seq<ResourceView>),
}

/// An effect as plain values.
pub struct EffectView {
    pub graph_id: u128,
    pub generation: u64,
    pub controller: Seq<char>,
    pub command: EffectCommandView,
}

impl View for ControllerEffect {
    type V = EffectView;

    open spec fn view(&self) -> EffectView {
        EffectView {
            graph_id: self.graph_id,
            generation: self.generation,
            controller: self.controller@,
            command: match &self.command {
                EffectCommand::Reconcile { plan_digest, resources, superseded } => EffectCommandView::Reconcile(
                    *plan_digest,
                    resources_view(resources@),
                    resources_view(superseded@),
                ),
                EffectCommand::Supersede { resources } => EffectCommandView::Supersede(resources_view(resources@)),
                EffectCommand::Retire { resources } => EffectCommandView::Retire(resources_view(resources@)),
            },
        }
    }
}

/// Effects as plain values.
pub open spec fn effects_view(e: Seq<ControllerEffect>) -> Seq<EffectView> {
    e.map_values(|x: ControllerEffect| x@)
}

/// `rs` holds a resource with id `id`.
pub open spec fn has_resource(rs: Seq<ResourceView>, id: u128) -> bool {
    exists|i: int| 0 <= i < rs.len() && rs[i].id == id
}

/// The resources of `previous`, in order, whose id `plan` no longer holds.
pub open spec fn removed_from(previous: Seq<ResourceView>, plan: Seq<ResourceView>) -> Seq<ResourceView>
    decreases previous.len(),
{
    if previous.len() == 0 {
        Seq::empty()
    } else {
        let before = removed_from(previous.drop_last(), plan);
        if has_resource(plan, previous.last().id) {
            before
        } else {
            before.push(previous.last())
        }
    }
}

/// One reconcile effect per group, carrying the removed resources of the
/// same controller.
pub open spec fn reconcile_effects(
    graph_id: u128,
    generation: u64,
    digest: ContentDigest,
    groups: Seq<(Seq<char>, Seq<ResourceView>)>,
    removed: Seq<ResourceView>,
) -> Seq<EffectView> {
    groups.map_values(
        |g: (Seq<char>, Seq<ResourceView>)|
            EffectView {
                graph_id,
                generation,
                controller: g.0,
                command: EffectCommandView::Reconcile(digest, g.1, owned_by(removed, g.0)),
            },
    )
}

/// One supersede effect per group whose controller is not in `current`.
pub open spec fn supersede_effects(
    graph_id: u128,
    generation: u64,
    groups: Seq<(Seq<char>, Seq<ResourceView>)>,
    current: Set<Seq<char>>,
) -> Seq<EffectView>
    decreases groups.len(),
{
    if groups.len() == 0 {
        Seq::empty()
    } else {
        let before = supersede_effects(graph_id, generation, groups.drop_last(), current);
        let g = groups.last();
        if current.contains(g.0) {
            before
        } else {
            before.push(
                EffectView { graph_id, generation, controller: g.0, command: EffectCommandView::Supersede(g.1) },
            )
        }
    }
}

/// The effects of accepting a plan whose resources are `plan` over a
/// previous plan whose resources were `previous`: every controller of the
/// new plan is asked to reconcile its resources and clean up its removed
/// ones, in ascending order of controller name; then every controller that
/// only had removed resources is asked to supersede them, in the same order.
pub open spec fn dispatched(
    graph_id: u128,
    generation: u64,
    digest: ContentDigest,
    previous: Option<Seq<ResourceView>>,
    plan: Seq<ResourceView>,
) -> Seq<EffectView> {
    let removed = match previous {
        Some(p) => removed_from(p, plan),
        None => Seq::empty(),
    };
    reconcile_effects(graph_id, generation, digest, grouping(plan), removed) + supersede_effects(
        graph_id,
        generation,
        grouping(removed),
        controllers_of(plan),
    )
}

/// Some reconcile effect of `effects` asks the controller of `r` to
/// converge `r`.
pub open spec fn reconciled_by_owner(effects: Seq<EffectView>, r: ResourceView) -> bool {
    exists|e: int|
        0 <= e < effects.len() && (#[trigger] effects[e]).controller == r.controller && (
        effects[e].command matches EffectCommandView::Reconcile(_, rs, _) && rs.contains(r))
}

/// The resources of an optional plan as plain values.
pub open spec fn plan_resources(p: Option<&Plan>) -> Option<Seq<ResourceView>> {
    match p {
        Some(x) => Some(resources_view(x.resources@)),
        None => None,
    }
}

fn holds_resource(resources: &Vec<Resource>, id: u128) -> (found: bool)
    ensures
        found == has_resource(resources_view(resources@), id),
{
    let n = resources.len();
    let mut i: usize = 0;
    while i < n
        invariant
            n == resources@.len(),
            i <= n,
            forall|j: int| 0 <= j < i ==> resources@[j].id != id,
        decreases n - i,
    {
        if resources[i].id == id {
            assert(resources_view(resources@)[i as int].id == id);
            return true;
        }
        i = i + 1;
    }
    proof {
        assert forall|j: int| 0 <= j < n implies resources_view(resources@)[j].id != id by {
            assert(resources_view(resources@)[j] == resources@[j]@);
        }
    }
    false
}

fn removed_resources(previous: &Vec<Resource>, plan: &Vec<Resource>) -> (out: Vec<Resource>)
    ensures
        resources_view(out@) == removed_from(resources_view(previous@), resources_view(plan@)),
{
    let ghost pv = resources_view(previous@);
    let ghost nv = resources_view(plan@);
    let mut out: Vec<Resource> = Vec::new();
    let n = previous.len();
    let mut i: usize = 0;
    while i < n
        invariant
            n == previous@.len(),
            pv == resources_view(previous@),
            nv == resources_view(plan@),
            i <= n,
            resources_view(out@) == removed_from(pv.take(i as int), nv),
        decreases n - i,
    {
        proof {
            assert(pv.take(i + 1).drop_last() =~= pv.take(i as int));
            assert(pv.take(i + 1).last() == pv[i as int]);
        }
        if !holds_resource(plan, previous[i].id) {
            let ghost before = out@;
            out.push(previous[i].copied());
            assert(resources_view(out@) =~= resources_view(before).push(pv[i as int]));
        }
        i = i + 1;
    }
    assert(pv.take(n as int) =~= pv);
    out
}

/// The effects of accepting `plan` over `previous`, as `dispatched` states.
pub fn dispatch_effects(graph_id: u128, previous: Option<&Plan>, plan: &Plan) -> (effects: Vec<ControllerEffect>)
    ensures
        effects_view(effects@) == dispatched(
            graph_id,
            plan.generation,
            plan.digest,
            plan_resources(previous),
            resources_view(plan.resources@),
        ),
        forall|k: int|
            0 <= k < plan.resources@.len() ==> reconciled_by_owner(effects_view(effects@), #[trigger] resources_view(plan.resources@)[k]),
{
    let ghost nv = resources_view(plan.resources@);
    let removed = match previous {
        Some(p) => removed_resources(&p.resources, &plan.resources),
        None => Vec::new(),
    };
    let ghost rv = resources_view(removed@);
    assert(rv == match plan_resources(previous) {
        Some(p) => removed_from(p, nv),
        None => Seq::<ResourceView>::empty(),
    });
    let current = group_by_controller(&plan.resources);
    let ghost cur = groups_view(current@);
    let ghost reconciles = reconcile_effects(graph_id, plan.generation, plan.digest, cur, rv);
    let mut effects: Vec<ControllerEffect> = Vec::new();
    let m = current.len();
    let mut k: usize = 0;
    while k < m
        invariant
            m == current@.len(),
            cur == groups_view(current@),
            rv == resources_view(removed@),
            reconciles == reconcile_effects(graph_id, plan.generation, plan.digest, cur, rv),
            k <= m,
            reconciles.len() == m,
            effects@.len() == k,
            effects_view(effects@) == reconciles.take(k as int),
        decreases m - k,
    {
        let superseded = owned(&removed, current[k].0.as_str());
        let name = current[k].0.clone();
        let members = copy_resources(&current[k].1);
        let effect = ControllerEffect {
            graph_id,
            generation: plan.generation,
            controller: name,
            command: EffectCommand::Reconcile { plan_digest: plan.digest, resources: members, superseded },
        };
        proof {
            assert(cur[k as int] == (current@[k as int].0@, resources_view(current@[k as int].1@)));
            assert(effect@ == reconciles[k as int]);
        }
        let ghost ev = effect@;
        let ghost before = effects@;
        effects.push(effect);
        proof {
            assert(effects@[k as int]@ == ev);
            assert(effects_view(effects@)[k as int] == reconciles[k as int]);
            assert forall|i: int| 0 <= i < k implies effects_view(effects@)[i] == reconciles.take(k + 1)[i] by {
                assert(effects@[i] == before[i]);
                assert(effects_view(before)[i] == reconciles.take(k as int)[i]);
            }
            assert(effects_view(effects@) =~= reconciles.take(k + 1));
        }
        k = k + 1;
    }
    assert(reconciles.take(m as int) =~= reconciles);
    proof {
        assert forall|k: int| 0 <= k < nv.len() implies reconciled_by_owner(reconciles, #[trigger] nv[k]) by {
            let c = nv[k].controller;
            assert(controllers_of(nv).contains(c));
            assert(group_names(cur).to_set().contains(c));
            let e = choose|e: int| 0 <= e < group_names(cur).len() && group_names(cur)[e] == c;
            assert(cur[e].0 == c);
            lemma_owned_by_contains(nv, k);
            assert(reconciles[e].controller == c);
        }
    }
    let current_names = controllers(&plan.resources);
    let gone = group_by_controller(&removed);
    let ghost rem = groups_view(gone@);
    let ghost cset = controllers_of(nv);
    let g = gone.len();
    let mut j: usize = 0;
    while j < g
        invariant
            g == gone@.len(),
            rem == groups_view(gone@),
            current_names@ == cset,
            j <= g,
            effects_view(effects@) == reconciles + supersede_effects(graph_id, plan.generation, rem.take(j as int), cset),
        decreases g - j,
    {
        proof {
            assert(rem.take(j + 1).drop_last() =~= rem.take(j as int));
            assert(rem.take(j + 1).last() == rem[j as int]);
            assert(rem[j as int] == (gone@[j as int].0@, resources_view(gone@[j as int].1@)));
        }
        if !current_names.contains(gone[j].0.as_str()) {
            let effect = ControllerEffect {
                graph_id,
                generation: plan.generation,
                controller: gone[j].0.clone(),
                command: EffectCommand::Supersede { resources: copy_resources(&gone[j].1) },
            };
            let ghost ev = effect@;
            let ghost before = effects@;
            effects.push(effect);
            assert(effects@.last()@ == ev);
            assert(effects_view(effects@) =~= effects_view(before).push(ev));
        }
        j = j + 1;
    }
    assert(rem.take(g as int) =~= rem);
    proof {
        assert forall|k: int| 0 <= k < nv.len() implies reconciled_by_owner(effects_view(effects@), #[trigger] nv[k]) by {
            assert(reconciled_by_owner(reconciles, nv[k]));
            let e = choose|e: int|
                0 <= e < reconciles.len() && (#[trigger] reconciles[e]).controller == nv[k].controller && (
                reconciles[e].command matches EffectCommandView::Reconcile(_, rs, _) && rs.contains(nv[k]));
            assert(effects_view(effects@)[e] == reconciles[e]);
        }
    }
    effects
}

// === Retirement ===

/// One retire effect per controller of `rs`, in ascending order of
/// controller name.
pub open spec fn retirement_effects(graph_id: u128, last_generation: u64, rs: Seq<ResourceView>) -> Seq<EffectView> {
    grouping(rs).map_values(
        |g: (Seq<char>, Seq<ResourceView>)|
            EffectView { graph_id, generation: last_generation, controller: g.0, command: EffectCommandView::Retire(g.1) },
    )
}

/// The resources of an optional plan, none when there is no plan.
pub open spec fn planned_or_none(p: Option<&Plan>) -> Seq<ResourceView> {
    match p {
        Some(x) => resources_view(x.resources@),
        None => Seq::empty(),
    }
}

/// What retiring a graph comes to.
#[derive(Debug)]
pub enum RetireOutcome {
    /// The caller expected another generation.
    GenerationConflict { expected: u64, actual: u64 },
    /// The graph was retired before: nothing happens.
    AlreadyRetired,
    /// The graph is retired and its controllers remove its resources.
    Retired(Vec<ControllerEffect>),
}

/// Retires a graph at `generation` whose plan is `plan`, when the caller
/// expected `expected_generation`: a mismatch is a conflict, a retired
/// graph stays as it is, and otherwise every controller of the plan is
/// asked to remove its resources.
pub fn retire_graph(graph_id: u128, generation: u64, retired: bool, expected_generation: u64, plan: Option<&Plan>) -> (outcome: RetireOutcome)
    ensures
        generation != expected_generation ==> outcome == (RetireOutcome::GenerationConflict {
            expected: expected_generation,
            actual: generation,
        }),
        generation == expected_generation && retired ==> outcome is AlreadyRetired,
        generation == expected_generation && !retired ==> (outcome matches RetireOutcome::Retired(effects) && effects_view(effects@) == retirement_effects(graph_id, expected_generation, planned_or_none(plan))),
{
    if generation != expected_generation {
        return RetireOutcome::GenerationConflict { expected: expected_generation, actual: generation };
    }
    if retired {
        return RetireOutcome::AlreadyRetired;
    }
    let none: Vec<Resource> = Vec::new();
    let resources = match plan {
        Some(p) => &p.resources,
        None => &none,
    };
    let groups = group_by_controller(resources);
    let ghost gv = groups_view(groups@);
    let ghost target = retirement_effects(graph_id, expected_generation, planned_or_none(plan));
    assert(resources_view(resources@) == planned_or_none(plan));
    let mut effects: Vec<ControllerEffect> = Vec::new();
    let m = groups.len();
    let mut k: usize = 0;
    while k < m
        invariant
            m == groups@.len(),
            gv == groups_view(groups@),
            gv == grouping(planned_or_none(plan)),
            target == retirement_effects(graph_id, expected_generation, planned_or_none(plan)),
            target.len() == m,
            k <= m,
            effects@.len() == k,
            effects_view(effects@) == target.take(k as int),
        decreases m - k,
    {
        let effect = ControllerEffect {
            graph_id,
            generation: expected_generation,
            controller: groups[k].0.clone(),
            command: EffectCommand::Retire { resources: copy_resources(&groups[k].1) },
        };
        proof {
            assert(gv[k as int] == (groups@[k as int].0@, resources_view(groups@[k as int].1@)));
            assert(effect@ == target[k as int]);
        }
        let ghost ev = effect@;
        let ghost before = effects@;
        effects.push(effect);
        proof {
            assert(effects@[k as int]@ == ev);
            assert forall|i: int| 0 <= i < k + 1 implies effects_view(effects@)[i] == target.take(k + 1)[i] by {
                if i < k {
                    assert(effects@[i] == before[i]);
                    assert(effects_view(before)[i] == target.take(k as int)[i]);
                }
            }
            assert(effects_view(effects@) =~= target.take(k + 1));
        }
        k = k + 1;
    }
    assert(target.take(m as int) =~= target);
    RetireOutcome::Retired(effects)
}

// === Controller reports ===

/// An observed output of a resource that feeds a component output.
#[derive(Debug)]
pub struct ObservedBinding {
    pub resource: u128,
    pub output: String,
    pub target: OutputRef,
}

/// A binding as plain values: the resource, its output, and the component
/// output it feeds.
pub open spec fn binding_view(b: ObservedBinding) -> (u128, Seq<char>, (Seq<char>, Seq<char>)) {
    (b.resource, b.output@, (b.target.component@, b.target.output@))
}

/// Bindings as plain values.
pub open spec fn bindings_view(b: Seq<ObservedBinding>) -> Seq<(u128, Seq<char>, (Seq<char>, Seq<char>))> {
    b.map_values(|x: ObservedBinding| binding_view(x))
}

/// A component output that a report publishes: the output, its value, and
/// the resource output it was observed on.
#[derive(Debug)]
pub struct PublishedOutput {
    pub generation: u64,
    pub output: OutputRef,
    pub value: String,
    pub resource: u128,
    pub resource_output: String,
}

/// A published output as plain values.
pub open spec fn published_view(p: PublishedOutput) -> (u64, (Seq<char>, Seq<char>), Seq<char>, u128, Seq<char>) {
    (p.generation, (p.output.component@, p.output.output@), p.value@, p.resource, p.resource_output@)
}

/// Published outputs as plain values.
pub open spec fn publications_view(p: Seq<PublishedOutput>) -> Seq<(u64, (Seq<char>, Seq<char>), Seq<char>, u128, Seq<char>)> {
    p.map_values(|x: PublishedOutput| published_view(x))
}

/// Why a report is refused.
#[derive(Clone, Copy, Debug, PartialEq, Eq, Structural)]
pub enum ReportRefusal {
    /// The report does not answer for exactly the controller's resources.
    Incomplete,
    /// The report publishes an output that its resource does not declare
    /// as observed, or one of a resource it does not own.
    InvalidObservedOutput,
}

/// How a report that is not refused is taken.
#[derive(Debug)]
pub enum ReportScreen {
    /// It answers for an older generation or plan: it has no effect.
    Stale,
    /// Its publication was taken before: it has no effect.
    Duplicate,
    /// It is taken, publishing these component outputs.
    Accepted(Vec<PublishedOutput>),
}

/// The first resource of `rs` with id `id`.
pub open spec fn resource_with_id(rs: Seq<Resource>, id: u128) -> Option<Resource>
    decreases rs.len(),
{
    if rs.len() == 0 {
        None
    } else if rs[0].id == id {
        Some(rs[0])
    } else {
        resource_with_id(rs.drop_first(), id)
    }
}

/// The ids of the resources of `rs` owned by `controller`.
pub open spec fn owned_ids(rs: Seq<Resource>, controller: Seq<char>) -> Set<u128> {
    Set::new(|id: u128| exists|i: int| 0 <= i < rs.len() && rs[i].controller@ == controller && rs[i].id == id)
}

/// The resources a report answers for.
pub open spec fn answered_ids(d: Seq<(u128, Option<Seq<char>>)>) -> Set<u128> {
    Set::new(|id: u128| exists|i: int| 0 <= i < d.len() && d[i].0 == id)
}

/// An observed output `o` may be published by `controller`: its resource is
/// in the plan, owned by `controller`, and declares the output as observed.
pub open spec fn output_allowed(rs: Seq<Resource>, controller: Seq<char>, o: (u128, Seq<char>, Seq<char>)) -> bool {
    match resource_with_id(rs, o.0) {
        Some(r) => r.controller@ == controller && first_observed(r.outputs@, o.1) == Some(true),
        None => false,
    }
}

/// The component output fed by output `name` of resource `id`, by the first
/// binding for it.
pub open spec fn bound_output(b: Seq<(u128, Seq<char>, (Seq<char>, Seq<char>))>, id: u128, name: Seq<char>) -> Option<(Seq<char>, Seq<char>)>
    decreases b.len(),
{
    if b.len() == 0 {
        None
    } else if b[0].0 == id && b[0].1 == name {
        Some(b[0].2)
    } else {
        bound_output(b.drop_first(), id, name)
    }
}

/// What a report's outputs publish: each output that feeds a component
/// output, in order, under `generation`.
pub open spec fn published_by(
    outputs: Seq<(u128, Seq<char>, Seq<char>)>,
    b: Seq<(u128, Seq<char>, (Seq<char>, Seq<char>))>,
    generation: u64,
) -> Seq<(u64, (Seq<char>, Seq<char>), Seq<char>, u128, Seq<char>)>
    decreases outputs.len(),
{
    if outputs.len() == 0 {
        Seq::empty()
    } else {
        let before = published_by(outputs.drop_last(), b, generation);
        let o = outputs.last();
        match bound_output(b, o.0, o.1) {
            Some(target) => before.push((generation, target, o.2, o.0, o.1)),
            None => before,
        }
    }
}

/// A screening outcome as plain values.
pub enum ScreenView {
    Stale,
    Duplicate,
    Accepted(Seq<(u64, (Seq<char>, Seq<char>), Seq<char>, u128, Seq<char>)>),
}

/// A screening outcome as plain values.
pub open spec fn screen_view(s: ReportScreen) -> ScreenView {
    match s {
        ReportScreen::Stale => ScreenView::Stale,
        ReportScreen::Duplicate => ScreenView::Duplicate,
        ReportScreen::Accepted(p) => ScreenView::Accepted(publications_view(p@)),
    }
}

/// How a report is taken by a graph at `generation` with plan `plan`, that
/// took the publications `taken` and binds resource outputs by `bindings`:
/// a report for another generation or plan is stale; one that does not
/// answer for exactly its controller's resources is refused; one whose
/// publication was taken is a duplicate; one with an output it may not
/// publish is refused; otherwise it publishes its bound outputs.
pub open spec fn screened(
    report: ControllerReport,
    generation: u64,
    plan: &Plan,
    taken: Seq<u128>,
    bindings: Seq<(u128, Seq<char>, (Seq<char>, Seq<char>))>,
) -> Result<ScreenView, ReportRefusal> {
    let r = report@;
    if r.generation != generation || r.plan_digest != plan.digest {
        Ok(ScreenView::Stale)
    } else if owned_ids(plan.resources@, r.controller) != answered_ids(r.dispositions) {
        Err(ReportRefusal::Incomplete)
    } else if r.publication_id matches Some(p) && taken.contains(p) {
        Ok(ScreenView::Duplicate)
    } else if exists|i: int| 0 <= i < r.outputs.len() && !output_allowed(plan.resources@, r.controller, #[trigger] r.outputs[i]) {
        Err(ReportRefusal::InvalidObservedOutput)
    } else {
        Ok(ScreenView::Accepted(published_by(r.outputs, bindings, generation)))
    }
}

proof fn lemma_resource_with_id_skip(rs: Seq<Resource>, id: u128, i: int)
    requires
        0 <= i < rs.len(),
        forall|j: int| 0 <= j < i ==> rs[j].id != id,
    ensures
        resource_with_id(rs, id) == resource_with_id(rs.skip(i), id),
    decreases i,
{
    if i > 0 {
        assert(rs[0].id != id);
        assert(rs.skip(1) =~= rs.drop_first());
        lemma_resource_with_id_skip(rs.drop_first(), id, i - 1);
        assert(rs.drop_first().skip(i - 1) =~= rs.skip(i));
    } else {
        assert(rs.skip(0) =~= rs);
    }
}

proof fn lemma_resource_with_id_absent(rs: Seq<Resource>, id: u128)
    requires
        forall|j: int| 0 <= j < rs.len() ==> rs[j].id != id,
    ensures
        resource_with_id(rs, id) is None,
    decreases rs.len(),
{
    if rs.len() > 0 {
        assert(rs[0].id != id);
        lemma_resource_with_id_absent(rs.drop_first(), id);
    }
}

fn find_resource(resources: &Vec<Resource>, id: u128) -> (at: Option<usize>)
    ensures
        at matches Some(i) ==> i < resources@.len() && resource_with_id(resources@, id) == Some(resources@[i as int]),
        at is None ==> resource_with_id(resources@, id) is None,
{
    let n = resources.len();
    let mut i: usize = 0;
    while i < n
        invariant
            n == resources@.len(),
            i <= n,
            forall|j: int| 0 <= j < i ==> resources@[j].id != id,
        decreases n - i,
    {
        if resources[i].id == id {
            proof {
                lemma_resource_with_id_skip(resources@, id, i as int);
            }
            return Some(i);
        }
        i = i + 1;
    }
    proof {
        lemma_resource_with_id_absent(resources@, id);
    }
    None
}

fn output_permitted(resources: &Vec<Resource>, controller: &str, resource: u128, name: &str) -> (ok: bool)
    ensures
        ok == output_allowed(resources@, controller@, (resource, name@, Seq::<char>::empty())),
{
    match find_resource(resources, resource) {
        None => false,
        Some(i) => {
            if !text_equal(resources[i].controller.as_str(), controller) {
                return false;
            }
            match find_declaration(&resources[i], name) {
                Some(d) => resources[i].outputs[d].observed,
                None => false,
            }
        },
    }
}

fn owned_answered(resources: &Vec<Resource>, controller: &str, answered: &Vec<crate::controller::ResourceDisposition>) -> (same: bool)
    ensures
        same == (owned_ids(resources@, controller@) == answered_ids(crate::controller::dispositions_view(answered@))),
{
    let ghost ov = owned_ids(resources@, controller@);
    let ghost av = answered_ids(crate::controller::dispositions_view(answered@));
    let n = resources.len();
    let mut i: usize = 0;
    while i < n
        invariant
            n == resources@.len(),
            i <= n,
            ov == owned_ids(resources@, controller@),
            av == answered_ids(crate::controller::dispositions_view(answered@)),
            forall|j: int| 0 <= j < i && resources@[j].controller@ == controller@ ==> av.contains(#[trigger] resources@[j].id),
        decreases n - i,
    {
        if text_equal(resources[i].controller.as_str(), controller) {
            let id = resources[i].id;
            let m = answered.len();
            let mut k: usize = 0;
            let mut found = false;
            while k < m
                invariant
                    m == answered@.len(),
                    k <= m,
                    found ==> av.contains(id),
                    !found ==> forall|q: int| 0 <= q < k ==> answered@[q].resource != id,
                    av == answered_ids(crate::controller::dispositions_view(answered@)),
                decreases m - k,
            {
                if answered[k].resource == id {
                    assert(crate::controller::dispositions_view(answered@)[k as int].0 == id);
                    found = true;
                }
                k = k + 1;
            }
            if !found {
                proof {
                    assert(ov.contains(id));
                    if av.contains(id) {
                        let q = choose|q: int| 0 <= q < answered@.len() && crate::controller::dispositions_view(answered@)[q].0 == id;
                        assert(crate::controller::dispositions_view(answered@)[q] == crate::controller::disposition_view(answered@[q]));
                        assert(answered@[q].resource == id);
                    }
                }
                assert(!av.contains(id));
                assert(ov != av);
                return false;
            }
        }
        i = i + 1;
    }
    let m = answered.len();
    let mut k: usize = 0;
    while k < m
        invariant
            m == answered@.len(),
            k <= m,
            n == resources@.len(),
            ov == owned_ids(resources@, controller@),
            av == answered_ids(crate::controller::dispositions_view(answered@)),
            forall|j: int| 0 <= j < k ==> ov.contains(#[trigger] answered@[j].resource),
        decreases m - k,
    {
        let id = answered[k].resource;
        let mut j: usize = 0;
        let mut found = false;
        while j < n
            invariant
                n == resources@.len(),
                j <= n,
                ov == owned_ids(resources@, controller@),
                found ==> ov.contains(id),
                !found ==> forall|q: int| 0 <= q < j ==> !(resources@[q].id == id && resources@[q].controller@ == controller@),
            decreases n - j,
        {
            if resources[j].id == id && text_equal(resources[j].controller.as_str(), controller) {
                found = true;
            }
            j = j + 1;
        }
        if !found {
            proof {
                assert(crate::controller::dispositions_view(answered@)[k as int].0 == id);
                assert(av.contains(id));
            }
            proof {
                if ov.contains(id) {
                    let q = choose|q: int| 0 <= q < resources@.len() && resources@[q].controller@ == controller@ && resources@[q].id == id;
                }
            }
            assert(!ov.contains(id));
            assert(ov != av);
            return false;
        }
        k = k + 1;
    }
    proof {
        assert forall|id: u128| ov.contains(id) <==> av.contains(id) by {
            if ov.contains(id) {
                let j = choose|j: int| 0 <= j < resources@.len() && resources@[j].controller@ == controller@ && resources@[j].id == id;
                assert(av.contains(resources@[j].id));
            }
            if av.contains(id) {
                let q = choose|q: int| 0 <= q < answered@.len() && crate::controller::dispositions_view(answered@)[q].0 == id;
                assert(ov.contains(answered@[q].resource));
            }
        }
        assert(ov =~= av);
    }
    true
}

proof fn lemma_bound_output_skip(b: Seq<(u128, Seq<char>, (Seq<char>, Seq<char>))>, id: u128, name: Seq<char>, i: int)
    requires
        0 <= i <= b.len(),
        forall|j: int| 0 <= j < i ==> !(b[j].0 == id && b[j].1 == name),
    ensures
        bound_output(b, id, name) == bound_output(b.skip(i), id, name),
    decreases i,
{
    if i > 0 {
        assert(!(b[0].0 == id && b[0].1 == name));
        lemma_bound_output_skip(b.drop_first(), id, name, i - 1);
        assert(b.drop_first().skip(i - 1) =~= b.skip(i));
    } else {
        assert(b.skip(0) =~= b);
    }
}

fn find_binding(bindings: &Vec<ObservedBinding>, id: u128, name: &str) -> (at: Option<usize>)
    ensures
        at matches Some(i) ==> i < bindings@.len() && bound_output(bindings_view(bindings@), id, name@) == Some(
            binding_view(bindings@[i as int]).2,
        ),
        at is None ==> bound_output(bindings_view(bindings@), id, name@) is None,
{
    let ghost bv = bindings_view(bindings@);
    let n = bindings.len();
    let mut i: usize = 0;
    while i < n
        invariant
            n == bindings@.len(),
            bv == bindings_view(bindings@),
            i <= n,
            forall|j: int| 0 <= j < i ==> !(bv[j].0 == id && bv[j].1 == name@),
        decreases n - i,
    {
        if bindings[i].resource == id && text_equal(bindings[i].output.as_str(), name) {
            proof {
                lemma_bound_output_skip(bv, id, name@, i as int);
                assert(bv.skip(i as int)[0] == bv[i as int]);
            }
            return Some(i);
        }
        assert(bv[i as int] == binding_view(bindings@[i as int]));
        i = i + 1;
    }
    proof {
        lemma_bound_output_skip(bv, id, name@, n as int);
    }
    None
}

/// Screens a controller report as `screened` states.
pub fn screen_report(
    report: &ControllerReport,
    generation: u64,
    plan: &Plan,
    taken: &Vec<u128>,
    bindings: &Vec<ObservedBinding>,
) -> (screen: Result<ReportScreen, ReportRefusal>)
    ensures
        match screen {
            Ok(s) => screened(*report, generation, plan, taken@, bindings_view(bindings@)) == Ok::<ScreenView, ReportRefusal>(screen_view(s)),
            Err(e) => screened(*report, generation, plan, taken@, bindings_view(bindings@)) == Err::<ScreenView, ReportRefusal>(e),
        },
{
    let ghost r = report@;
    let ghost bv = bindings_view(bindings@);
    if report.generation != generation || report.plan_digest != plan.digest {
        return Ok(ReportScreen::Stale);
    }
    if !owned_answered(&plan.resources, report.controller.as_str(), &report.dispositions) {
        return Err(ReportRefusal::Incomplete);
    }
    if let Some(p) = report.publication_id {
        let n = taken.len();
        let mut i: usize = 0;
        while i < n
            invariant
                n == taken@.len(),
                i <= n,
                r == report@,
                bv == bindings_view(bindings@),
                r.publication_id == Some(p),
                r.generation == generation && r.plan_digest == plan.digest,
                owned_ids(plan.resources@, r.controller) == answered_ids(r.dispositions),
                forall|j: int| 0 <= j < i ==> taken@[j] != p,
            decreases n - i,
        {
            if taken[i] == p {
                assert(taken@[i as int] == p);
                assert(taken@.contains(p));
                assert(r.publication_id == Some(p));
                assert(owned_ids(plan.resources@, r.controller) == answered_ids(r.dispositions));
                assert(screened(*report, generation, plan, taken@, bv) == Ok::<ScreenView, ReportRefusal>(ScreenView::Duplicate));
                return Ok(ReportScreen::Duplicate);
            }
            i = i + 1;
        }
        assert(!taken@.contains(p));
    }
    let ghost outs = r.outputs;
    let mut published: Vec<PublishedOutput> = Vec::new();
    let m = report.outputs.len();
    let mut i: usize = 0;
    while i < m
        invariant
            m == report.outputs@.len(),
            r == report@,
            outs == r.outputs,
            outs.len() == m,
            r.generation == generation && r.plan_digest == plan.digest,
            owned_ids(plan.resources@, r.controller) == answered_ids(r.dispositions),
            !(r.publication_id matches Some(p) && taken@.contains(p)),
            bv == bindings_view(bindings@),
            i <= m,
            forall|j: int| 0 <= j < i ==> output_allowed(plan.resources@, r.controller, #[trigger] outs[j]),
            publications_view(published@) == published_by(outs.take(i as int), bv, generation),
        decreases m - i,
    {
        let o = &report.outputs[i];
        assert(outs[i as int] == (o.resource, o.name@, o.value@));
        if !output_permitted(&plan.resources, report.controller.as_str(), o.resource, o.name.as_str()) {
            assert(!output_allowed(plan.resources@, r.controller, outs[i as int]));
            assert(!(r.publication_id matches Some(p) && taken@.contains(p)));
            assert(owned_ids(plan.resources@, r.controller) == answered_ids(r.dispositions));
            assert(screened(*report, generation, plan, taken@, bv) == Err::<ScreenView, ReportRefusal>(ReportRefusal::InvalidObservedOutput));
            return Err(ReportRefusal::InvalidObservedOutput);
        }
        proof {
            assert(outs.take(i + 1).drop_last() =~= outs.take(i as int));
            assert(outs.take(i + 1).last() == outs[i as int]);
        }
        match find_binding(bindings, o.resource, o.name.as_str()) {
            Some(b) => {
                let target = OutputRef {
                    component: bindings[b].target.component.clone(),
                    output: bindings[b].target.output.clone(),
                };
                let entry = PublishedOutput {
                    generation,
                    output: target,
                    value: o.value.clone(),
                    resource: o.resource,
                    resource_output: o.name.clone(),
                };
                let ghost before = published@;
                let ghost ev = published_view(entry);
                published.push(entry);
                assert(publications_view(published@) =~= publications_view(before).push(ev));
            },
            None => {},
        }
        i = i + 1;
    }
    assert(outs.take(m as int) =~= outs);
    Ok(ReportScreen::Accepted(published))
}

// === Blocked components ===

/// Blocked markers as plain values: each component with the components
/// whose outputs it waits on.
pub open spec fn markers_view(m: Seq<BlockedMarker>) -> Seq<(Seq<char>, Seq<Seq<char>>)> {
    m.map_values(|x: BlockedMarker| (x.component@, x.blocked_on@.map_values(|o: OutputRef| o.component@)))
}

/// The components that some marker blocks.
pub open spec fn blocked_components(m: Seq<(Seq<char>, Seq<Seq<char>>)>) -> Set<Seq<char>> {
    Set::new(|c: Seq<char>| exists|i: int| 0 <= i < m.len() && m[i].0 == c)
}

/// What the last marker of component `c` waits on.
pub open spec fn last_marker(m: Seq<(Seq<char>, Seq<Seq<char>>)>, c: Seq<char>) -> Option<Seq<Seq<char>>>
    decreases m.len(),
{
    if m.len() == 0 {
        None
    } else if m.last().0 == c {
        Some(m.last().1)
    } else {
        last_marker(m.drop_last(), c)
    }
}

/// Blocked component `a` waits on blocked component `b`: the last marker
/// of `a` names an output of `b`.
pub open spec fn waits_on(m: Seq<(Seq<char>, Seq<Seq<char>>)>, a: Seq<char>, b: Seq<char>) -> bool {
    &&& last_marker(m, a) matches Some(deps) && deps.contains(b)
    &&& blocked_components(m).contains(b)
}

/// `c` runs along the waits-on relation and comes back to where it
/// started.
pub open spec fn is_wait_cycle(m: Seq<(Seq<char>, Seq<Seq<char>>)>, c: Seq<Seq<char>>) -> bool {
    &&& c.len() >= 2
    &&& c[0] == c[c.len() - 1]
    &&& forall|i: int| 0 <= i < c.len() - 1 ==> #[trigger] waits_on(m, c[i], c[i + 1])
}

proof fn lemma_last_marker_blocked(m: Seq<(Seq<char>, Seq<Seq<char>>)>, c: Seq<char>)
    requires
        last_marker(m, c) is Some,
    ensures
        blocked_components(m).contains(c),
    decreases m.len(),
{
    if m.last().0 != c {
        lemma_last_marker_blocked(m.drop_last(), c);
        let i = choose|i: int| 0 <= i < m.drop_last().len() && m.drop_last()[i].0 == c;
        assert(m[i].0 == c);
    } else {
        assert(m[m.len() - 1].0 == c);
    }
}

fn last_marker_of(markers: &Vec<BlockedMarker>, component: &str) -> (at: Option<usize>)
    ensures
        at matches Some(i) ==> i < markers@.len() && last_marker(markers_view(markers@), component@) == Some(
            markers_view(markers@)[i as int].1,
        ),
        at is None ==> last_marker(markers_view(markers@), component@) is None,
{
    let ghost mv = markers_view(markers@);
    let mut k: usize = markers.len();
    assert(mv.take(k as int) =~= mv);
    while k > 0
        invariant
            k <= markers@.len(),
            mv == markers_view(markers@),
            last_marker(mv, component@) == last_marker(mv.take(k as int), component@),
        decreases k,
    {
        let i = k - 1;
        proof {
            assert(mv.take(k as int).drop_last() =~= mv.take(i as int));
            assert(mv.take(k as int).last() == mv[i as int]);
        }
        if text_equal(markers[i].component.as_str(), component) {
            return Some(i);
        }
        k = i;
    }
    None
}

fn position_in(names: &Vec<String>, name: &str) -> (at: Option<usize>)
    requires
        strictly_ascending(texts(names@)),
    ensures
        at matches Some(i) ==> i < names@.len() && texts(names@)[i as int] == name@,
        at is None ==> !texts(names@).contains(name@),
{
    let n = names.len();
    let mut i: usize = 0;
    while i < n
        invariant
            n == names@.len(),
            i <= n,
            forall|j: int| 0 <= j < i ==> texts(names@)[j] != name@,
        decreases n - i,
    {
        if text_equal(names[i].as_str(), name) {
            return Some(i);
        }
        i = i + 1;
    }
    None
}

/// The edges out of node `u` of a waits-on graph over the components `nt`.
spec fn edges_of(m: Seq<(Seq<char>, Seq<Seq<char>>)>, nt: Seq<Seq<char>>, out: Seq<usize>, u: int) -> bool {
    &&& forall|j: int| 0 <= j < out.len() ==> #[trigger] out[j] < nt.len()
    &&& forall|v: usize| v < nt.len() ==> (out.contains(v) <==> waits_on(m, nt[u], nt[v as int]))
}

fn wait_edges(markers: &Vec<BlockedMarker>, names: &Vec<String>, u: usize) -> (out: Vec<usize>)
    requires
        u < names@.len(),
        strictly_ascending(texts(names@)),
        texts(names@).to_set() == blocked_components(markers_view(markers@)),
    ensures
        edges_of(markers_view(markers@), texts(names@), out@, u as int),
{
    let ghost mv = markers_view(markers@);
    let ghost nt = texts(names@);
    let mut out: Vec<usize> = Vec::new();
    match last_marker_of(markers, names[u].as_str()) {
        None => {
            proof {
                assert(nt[u as int] == names@[u as int]@);
                assert forall|v: usize| v < nt.len() implies (out@.contains(v) <==> waits_on(mv, nt[u as int], nt[v as int])) by {}
            }
        },
        Some(i) => {
            let ghost deps = mv[i as int].1;
            let d = markers[i].blocked_on.len();
            let mut k: usize = 0;
            proof {
                assert(nt[u as int] == names@[u as int]@);
                assert(deps =~= markers@[i as int].blocked_on@.map_values(|o: OutputRef| o.component@));
            }
            while k < d
                invariant
                    i < markers@.len(),
                    strictly_ascending(texts(names@)),
                    d == markers@[i as int].blocked_on@.len(),
                    deps == markers@[i as int].blocked_on@.map_values(|o: OutputRef| o.component@),
                    nt == texts(names@),
                    k <= d,
                    forall|j: int| 0 <= j < out@.len() ==> #[trigger] out@[j] < nt.len(),
                    forall|v: usize| v < nt.len() ==> (out@.contains(v) <==> deps.take(k as int).contains(nt[v as int])),
                decreases d - k,
            {
                let ghost before = out@;
                let dep = &markers[i].blocked_on[k];
                assert(deps[k as int] == dep.component@);
                proof {
                    assert(deps.take(k + 1) =~= deps.take(k as int).push(deps[k as int]));
                }
                match position_in(names, dep.component.as_str()) {
                    Some(v) => {
                        assert(nt[v as int] == deps[k as int]);
                        out.push(v);
                        proof {
                            assert forall|w: usize| w < nt.len() implies (out@.contains(w) <==> deps.take(k + 1).contains(nt[w as int])) by {
                                if out@.contains(w) {
                                    let q = choose|q: int| 0 <= q < out@.len() && out@[q] == w;
                                    if q < before.len() {
                                        assert(before.contains(w));
                                        let z = choose|z: int| 0 <= z < deps.take(k as int).len() && #[trigger] deps.take(k as int)[z] == nt[w as int];
                                        assert(deps.take(k + 1)[z] == nt[w as int]);
                                    } else {
                                        assert(out@[q] == v);
                                        assert(w == v);
                                        assert(deps.take(k + 1)[k as int] == nt[w as int]);
                                    }
                                }
                                if deps.take(k + 1).contains(nt[w as int]) {
                                    let z = choose|z: int| 0 <= z < deps.take(k + 1).len() && #[trigger] deps.take(k + 1)[z] == nt[w as int];
                                    if z < k {
                                        assert(deps.take(k as int)[z] == nt[w as int]);
                                        assert(before.contains(w));
                                        let q = choose|q: int| 0 <= q < before.len() && before[q] == w;
                                        assert(out@[q] == w);
                                    } else {
                                        if v != w {
                                            assert(strictly_ascending(nt));
                                            lemma_ascending_distinct(nt, v as int, w as int);
                                        }
                                        assert(out@[before.len() as int] == w);
                                    }
                                }
                            }
                            assert forall|j: int| 0 <= j < out@.len() implies #[trigger] out@[j] < nt.len() by {
                                if j < before.len() {
                                    assert(out@[j] == before[j]);
                                }
                            }
                        }
                    },
                    None => {
                        proof {
                            assert forall|w: usize| w < nt.len() implies (out@.contains(w) <==> deps.take(k + 1).contains(nt[w as int])) by {
                                if deps.take(k + 1).contains(nt[w as int]) {
                                    let z = choose|z: int| 0 <= z < deps.take(k + 1).len() && #[trigger] deps.take(k + 1)[z] == nt[w as int];
                                    if z == k {
                                        assert(nt.contains(dep.component@));
                                    } else {
                                        assert(deps.take(k as int)[z] == nt[w as int]);
                                    }
                                }
                                if out@.contains(w) {
                                    let z = choose|z: int| 0 <= z < deps.take(k as int).len() && #[trigger] deps.take(k as int)[z] == nt[w as int];
                                    assert(deps.take(k + 1)[z] == nt[w as int]);
                                }
                            }
                        }
                    },
                }
                k = k + 1;
            }
            proof {
                assert(deps.take(d as int) =~= deps);
                assert forall|v: usize| v < nt.len() implies (out@.contains(v) <==> waits_on(mv, nt[u as int], nt[v as int])) by {
                    assert(nt.to_set().contains(nt[v as int]));
                    assert(blocked_components(mv).contains(nt[v as int]));
                }
            }
        },
    }
    out
}

proof fn lemma_ascending_distinct(t: Seq<Seq<char>>, a: int, b: int)
    requires
        strictly_ascending(t),
        0 <= a < t.len(),
        0 <= b < t.len(),
        a != b,
    ensures
        t[a] != t[b],
{
    if a < b {
        assert(crate::text::chars_lt(t[a], t[b]));
        crate::text::lemma_chars_lt_total(t[a], t[a]);
    } else {
        assert(crate::text::chars_lt(t[b], t[a]));
        crate::text::lemma_chars_lt_total(t[b], t[b]);
    }
}

/// A cycle of blocked components that wait on each other, if there is one:
/// `None` exactly when the waits-on relation of `markers` has no cycle.
pub fn blocked_cycle(markers: &Vec<BlockedMarker>) -> (cycle: Option<Vec<String>>)
    ensures
        cycle matches Some(c) ==> is_wait_cycle(markers_view(markers@), texts(c@)),
        cycle is None <==> forall|c: Seq<Seq<char>>| !#[trigger] is_wait_cycle(markers_view(markers@), c),
{
    let ghost mv = markers_view(markers@);
    let mut set = TextSet::new();
    let n0 = markers.len();
    let mut i: usize = 0;
    while i < n0
        invariant
            n0 == markers@.len(),
            mv == markers_view(markers@),
            i <= n0,
            set@ == blocked_components(mv.take(i as int)),
        decreases n0 - i,
    {
        set.insert(markers[i].component.clone());
        proof {
            let t = mv.take(i + 1);
            assert(t[i as int] == mv[i as int]);
            assert(mv[i as int].0 == markers@[i as int].component@);
            assert forall|c: Seq<char>| set@.contains(c) <==> blocked_components(t).contains(c) by {
                if blocked_components(mv.take(i as int)).contains(c) {
                    let j = choose|j: int| 0 <= j < i && mv.take(i as int)[j].0 == c;
                    assert(t[j] == mv.take(i as int)[j]);
                }
                if blocked_components(t).contains(c) {
                    let j = choose|j: int| 0 <= j < t.len() && t[j].0 == c;
                    if j < i {
                        assert(mv.take(i as int)[j] == t[j]);
                    }
                }
            }
            assert(set@ =~= blocked_components(t));
        }
        i = i + 1;
    }
    assert(mv.take(n0 as int) =~= mv);
    let names = set.into_items();
    let ghost nt = texts(names@);
    let n = names.len();
    let mut adj: Vec<Vec<usize>> = Vec::new();
    let mut u: usize = 0;
    while u < n
        invariant
            n == names@.len(),
            nt == texts(names@),
            mv == markers_view(markers@),
            strictly_ascending(nt),
            nt.to_set() == blocked_components(mv),
            u <= n,
            adj@.len() == u,
            forall|a: int| 0 <= a < u ==> edges_of(mv, nt, #[trigger] adj@[a]@, a),
        decreases n - u,
    {
        let out = wait_edges(markers, &names, u);
        let ghost before = adj@;
        adj.push(out);
        proof {
            assert forall|a: int| 0 <= a < u + 1 implies edges_of(mv, nt, #[trigger] adj@[a]@, a) by {
                if a < u {
                    assert(adj@[a] == before[a]);
                }
            }
        }
        u = u + 1;
    }
    let ghost g = graph_of(&adj);
    proof {
        assert forall|a: int, j: int| 0 <= a < g.len() && 0 <= j < g[a].len() implies #[trigger] g[a][j] < g.len() by {
            assert(g[a] == adj@[a]@);
            assert(edges_of(mv, nt, adj@[a]@, a));
        }
        assert(closed_graph(g));
    }
    let found = find_cycle(&adj);
    if found.len() == 0 {
        proof {
            assert forall|c: Seq<Seq<char>>| !#[trigger] is_wait_cycle(mv, c) by {
                if is_wait_cycle(mv, c) {
                    lemma_wait_cycle_indices(mv, nt, g, c);
                }
            }
        }
        return None;
    }
    let mut cycle: Vec<String> = Vec::new();
    let len = found.len();
    proof {
        assert forall|j: int| 0 <= j < len - 1 implies #[trigger] found@[j] < n by {
            assert(has_edge(g, found@[j] as int, found@[j + 1] as int));
        }
        assert(found@[0] < n);
        assert forall|j: int| 0 <= j < len implies #[trigger] found@[j] < n by {
            if j == len - 1 {
                assert(found@[j] == found@[0]);
            }
        }
    }
    let mut k: usize = 0;
    while k < len
        invariant
            len == found@.len(),
            forall|j: int| 0 <= j < len ==> #[trigger] found@[j] < n,
            is_cycle(g, found@),
            g == graph_of(&adj),
            g.len() == n,
            n == names@.len(),
            nt == texts(names@),
            k <= len,
            texts(cycle@) == found@.take(k as int).map_values(|x: usize| nt[x as int]),
        decreases len - k,
    {
        let x = found[k];
        assert(found@[k as int] < n);
        let ghost before = cycle@;
        cycle.push(names[x].clone());
        proof {
            assert(texts(cycle@) =~= texts(before).push(nt[x as int]));
            assert(found@.take(k + 1).map_values(|y: usize| nt[y as int]) =~= found@.take(k as int).map_values(
                |y: usize| nt[y as int],
            ).push(nt[x as int]));
        }
        k = k + 1;
    }
    proof {
        assert(found@.take(len as int) =~= found@);
        let c = texts(cycle@);
        assert forall|q: int| 0 <= q < c.len() - 1 implies #[trigger] waits_on(mv, c[q], c[q + 1]) by {
            assert(has_edge(g, found@[q] as int, found@[q + 1] as int));
            let u0 = found@[q] as int;
            let v0 = found@[q + 1] as int;
            let j = choose|j: int| 0 <= j < g[u0].len() && g[u0][j] == v0;
            assert(g[u0] == adj@[u0]@);
            assert(edges_of(mv, nt, adj@[u0]@, u0));
            assert(adj@[u0]@.contains(v0 as usize));
        }
        assert(is_wait_cycle(mv, c));
    }
    Some(cycle)
}

proof fn lemma_wait_cycle_indices(
    mv: Seq<(Seq<char>, Seq<Seq<char>>)>,
    nt: Seq<Seq<char>>,
    g: Seq<Seq<usize>>,
    c: Seq<Seq<char>>,
)
    requires
        is_wait_cycle(mv, c),
        nt.to_set() == blocked_components(mv),
        g.len() == nt.len(),
        nt.len() <= usize::MAX,
        forall|a: int| 0 <= a < g.len() ==> edges_of(mv, nt, #[trigger] g[a], a),
    ensures
        !acyclic(g),
{
    assert forall|q: int| 0 <= q < c.len() - 1 implies nt.contains(#[trigger] c[q]) by {
        assert(waits_on(mv, c[q], c[q + 1]));
        lemma_last_marker_blocked(mv, c[q]);
        assert(nt.to_set().contains(c[q]));
    }
    assert(nt.contains(c[0]));
    assert forall|q: int| 0 <= q < c.len() implies nt.contains(#[trigger] c[q]) by {
        if q == c.len() - 1 {
            assert(c[q] == c[0]);
        }
    }
    let idx = Seq::new(c.len(), |q: int| nt.index_of(c[q]) as usize);
    assert forall|q: int| 0 <= q < c.len() implies 0 <= #[trigger] idx[q] < nt.len() && nt[idx[q] as int] == c[q] by {
        assert(nt.contains(c[q]));
        assert(nt[nt.index_of(c[q])] == c[q]);
    }
    assert forall|q: int| 0 <= q < idx.len() - 1 implies #[trigger] has_edge(g, idx[q] as int, idx[q + 1] as int) by {
        assert(0 <= idx[q] < nt.len() && nt[idx[q] as int] == c[q]);
        assert(0 <= idx[q + 1] < nt.len() && nt[idx[q + 1] as int] == c[q + 1]);
        assert(waits_on(mv, c[q], c[q + 1]));
        let u0 = idx[q] as int;
        assert(edges_of(mv, nt, g[u0], u0));
        assert(g[u0].contains(idx[q + 1]));
        let j = choose|j: int| 0 <= j < g[u0].len() && g[u0][j] == idx[q + 1];
    }
    assert(idx[0] == idx[idx.len() - 1]);
    assert(is_cycle(g, idx));
}

impl Plan {
    /// A plan is complete when no component of it is blocked.
    pub fn is_complete(&self) -> (complete: bool)
        ensures
            complete == (self.blocked@.len() == 0),
    {
        self.blocked.len() == 0
    }
}

/// Whether a graph has stalled: once no controller work is pending, a plan
/// whose blocked components wait on each other in a cycle can make no
/// progress. The cycle is returned; `None` when work is pending, there is no
/// plan, or no such cycle exists.
pub fn stall_cycle(pending_empty: bool, plan: Option<&Plan>) -> (stall: Option<Vec<String>>)
    ensures
        !pending_empty || plan is None ==> stall is None,
        pending_empty && plan is Some ==> (stall matches Some(c) ==> is_wait_cycle(
            markers_view(plan.unwrap().blocked@),
            texts(c@),
        )),
        pending_empty && plan is Some ==> (stall is None <==> forall|c: Seq<Seq<char>>| !#[trigger] is_wait_cycle(markers_view(plan.unwrap().blocked@), c)),
{
    if !pending_empty {
        return None;
    }
    match plan {
        None => None,
        Some(p) => {
            if p.is_complete() {
                proof {
                    assert forall|c: Seq<Seq<char>>| !#[trigger] is_wait_cycle(markers_view(p.blocked@), c) by {
                        if is_wait_cycle(markers_view(p.blocked@), c) {
                            let i: int = 0;
                            assert(waits_on(markers_view(p.blocked@), c[i], c[i + 1]));
                            lemma_last_marker_blocked(markers_view(p.blocked@), c[i]);
                        }
                    }
                }
                None
            } else {
                blocked_cycle(&p.blocked)
            }
        },
    }
}

} // verus!

verus! {

/// What is removed when a plan replaces another: exactly the resources of
/// the previous plan whose id the new plan no longer holds, in their order;
/// and a controller's share of resources is exactly the resources it owns,
/// in their order.
pub proof fn law_removed_and_owned(previous: Seq<ResourceView>, plan: Seq<ResourceView>, r: ResourceView, c: Seq<char>)
    ensures
        removed_from(previous, plan).contains(r) <==> previous.contains(r) && !has_resource(plan, r.id),
        owned_by(previous, c).contains(r) <==> previous.contains(r) && r.controller == c,
        removed_from(previous, plan).len() <= previous.len(),
        owned_by(previous, c).len() <= previous.len(),
    decreases previous.len(),
{
    if previous.len() > 0 {
        let front = previous.drop_last();
        law_removed_and_owned(front, plan, r, c);
        assert(previous =~= front.push(previous.last()));
        assert(previous.contains(r) <==> front.contains(r) || previous.last() == r) by {
            if previous.contains(r) {
                let i = choose|i: int| 0 <= i < previous.len() && previous[i] == r;
                if i < front.len() {
                    assert(front[i] == r);
                }
            }
            if front.contains(r) {
                let i = choose|i: int| 0 <= i < front.len() && front[i] == r;
                assert(previous[i] == r);
            }
        }
        let before = removed_from(front, plan);
        if !has_resource(plan, previous.last().id) {
            assert(before.push(previous.last()).contains(r) <==> before.contains(r) || previous.last() == r) by {
                if before.push(previous.last()).contains(r) {
                    let i = choose|i: int| 0 <= i < before.len() + 1 && before.push(previous.last())[i] == r;
                    if i < before.len() {
                        assert(before[i] == r);
                    }
                }
                if before.contains(r) {
                    let i = choose|i: int| 0 <= i < before.len() && before[i] == r;
                    assert(before.push(previous.last())[i] == r);
                }
                assert(before.push(previous.last())[before.len() as int] == previous.last());
            }
        }
        let owned = owned_by(front, c);
        if previous.last().controller == c {
            assert(owned.push(previous.last()).contains(r) <==> owned.contains(r) || previous.last() == r) by {
                if owned.push(previous.last()).contains(r) {
                    let i = choose|i: int| 0 <= i < owned.len() + 1 && owned.push(previous.last())[i] == r;
                    if i < owned.len() {
                        assert(owned[i] == r);
                    }
                }
                if owned.contains(r) {
                    let i = choose|i: int| 0 <= i < owned.len() && owned[i] == r;
                    assert(owned.push(previous.last())[i] == r);
                }
                assert(owned.push(previous.last())[owned.len() as int] == previous.last());
            }
        }
    }
}

} // verus!

verus! {

/// Screening a controller report: it is stale exactly when it answers for
/// another generation or plan; a current report that does not answer for
/// exactly its controller's resources is refused as incomplete; and a
/// report is accepted only when it is current, complete, not taken before
/// and publishes only outputs it may publish; what it then publishes are
/// its outputs that feed a component output, each under the graph's
/// generation, with the value the report gave.
pub proof fn law_report_screening(
    report: ControllerReport,
    generation: u64,
    plan: &Plan,
    taken: Seq<u128>,
    bindings: Seq<(u128, Seq<char>, (Seq<char>, Seq<char>))>,
)
    ensures
        ({
            let r = report@;
            let outcome = screened(report, generation, plan, taken, bindings);
            &&& (outcome == Ok::<ScreenView, ReportRefusal>(ScreenView::Stale)) <==> (r.generation != generation
                || r.plan_digest != plan.digest)
            &&& r.generation == generation && r.plan_digest == plan.digest && owned_ids(plan.resources@, r.controller)
                != answered_ids(r.dispositions) ==> outcome == Err::<ScreenView, ReportRefusal>(ReportRefusal::Incomplete)
            &&& outcome matches Ok(ScreenView::Accepted(p)) ==> {
                &&& r.generation == generation && r.plan_digest == plan.digest
                &&& owned_ids(plan.resources@, r.controller) == answered_ids(r.dispositions)
                &&& !(r.publication_id matches Some(id) && taken.contains(id))
                &&& forall|i: int| 0 <= i < r.outputs.len() ==> output_allowed(plan.resources@, r.controller, #[trigger] r.outputs[i])
                &&& forall|k: int| 0 <= k < p.len() ==> published_entry(#[trigger] p[k], r.outputs, bindings, generation)
            }
        }),
{
    let r = report@;
    lemma_published_by(r.outputs, bindings, generation);
}

/// `e` publishes, under `generation`, an output of `outputs` with its
/// value, into the component output its binding names.
pub open spec fn published_entry(
    e: (u64, (Seq<char>, Seq<char>), Seq<char>, u128, Seq<char>),
    outputs: Seq<(u128, Seq<char>, Seq<char>)>,
    b: Seq<(u128, Seq<char>, (Seq<char>, Seq<char>))>,
    generation: u64,
) -> bool {
    &&& e.0 == generation
    &&& outputs.contains((e.3, e.4, e.2))
    &&& bound_output(b, e.3, e.4) == Some(e.1)
}

proof fn lemma_published_by(
    outputs: Seq<(u128, Seq<char>, Seq<char>)>,
    b: Seq<(u128, Seq<char>, (Seq<char>, Seq<char>))>,
    generation: u64,
)
    ensures
        forall|k: int|
            0 <= k < published_by(outputs, b, generation).len() ==> published_entry(
                #[trigger] published_by(outputs, b, generation)[k],
                outputs,
                b,
                generation,
            ),
    decreases outputs.len(),
{
    if outputs.len() > 0 {
        let front = outputs.drop_last();
        lemma_published_by(front, b, generation);
        let before = published_by(front, b, generation);
        let p = published_by(outputs, b, generation);
        let o = outputs.last();
        assert forall|k: int| 0 <= k < p.len() implies published_entry(#[trigger] p[k], outputs, b, generation) by {
            if k < before.len() {
                assert(p[k] == before[k]);
                assert(published_entry(before[k], front, b, generation));
                let i = choose|i: int| 0 <= i < front.len() && front[i] == (before[k].3, before[k].4, before[k].2);
                assert(outputs[i] == front[i]);
            } else {
                assert(outputs[outputs.len() - 1] == o);
            }
        }
    }
}

} // verus!
