//! What the orchestrator hands a controller (a command over one graph's
//! resources) and what a controller hands back (a pass outcome and, when it
//! settles, a report with one disposition per resource).

use vstd::prelude::*;

use crate::resource::{
    copy_outputs, copy_resources, observed_outputs_view, resources_view, ContentDigest, ObservedOutput, Resource,
    ResourceView,
};

verus! {

/// The resources of one graph generation owned by one controller, the
/// bundles of their components, and the superseded resources it must clean
/// up.
#[derive(Clone, Debug)]
pub struct ControllerSlice {
    pub graph_id: u128,
    pub generation: u64,
    pub plan_digest: ContentDigest,
    pub controller: String,
    pub bundles: Vec<(String, ContentDigest)>,
    pub resources: Vec<Resource>,
    pub superseded: Vec<Resource>,
}

/// Resources of a graph that the plan of `generation` no longer holds,
/// owned by `controller`.
#[derive(Clone, Debug)]
pub struct Supersession {
    pub graph_id: u128,
    pub generation: u64,
    pub controller: String,
    pub resources: Vec<Resource>,
}

/// Resources, owned by `controller`, of a graph that is being retired at
/// its last generation.
#[derive(Clone, Debug)]
pub struct Retirement {
    pub graph_id: u128,
    pub last_generation: u64,
    pub controller: String,
    pub resources: Vec<Resource>,
}

/// What a controller is asked to do for one graph.
#[derive(Clone, Debug)]
pub enum ControllerCommand {
    Reconcile(ControllerSlice),
    Supersede(Supersession),
    Retire(Retirement),
}

/// A slice as plain values.
pub struct SliceView {
    pub graph_id: u128,
    pub generation: u64,
    pub plan_digest: ContentDigest,
    pub controller: Seq<char>,
    pub bundles: Seq<(Seq<char>, ContentDigest)>,
    pub resources: Seq<ResourceView>,
    pub superseded: Seq<ResourceView>,
}

/// A command as plain values.
pub enum CommandView {
    Reconcile(SliceView),
    /// Graph, generation, controller and the resources to remove.
    Supersede(u128, u64, Seq<char>, Seq<ResourceView>),
    /// Graph, last generation, controller and the resources to remove.
    Retire(u128, u64, Seq<char>, Seq<ResourceView>),
}

/// Bundle references as plain values.
pub open spec fn bundles_view(b: Seq<(String, ContentDigest)>) -> Seq<(Seq<char>, ContentDigest)> {
    b.map_values(|e: (String, ContentDigest)| (e.0@, e.1))
}

impl View for ControllerSlice {
    type V = SliceView;

    open spec fn view(&self) -> SliceView {
        SliceView {
            graph_id: self.graph_id,
            generation: self.generation,
            plan_digest: self.plan_digest,
            controller: self.controller@,
            bundles: bundles_view(self.bundles@),
            resources: resources_view(self.resources@),
            superseded: resources_view(self.superseded@),
        }
    }
}

impl View for ControllerCommand {
    type V = CommandView;

    open spec fn view(&self) -> CommandView {
        match self {
            ControllerCommand::Reconcile(s) => CommandView::Reconcile(s@),
            ControllerCommand::Supersede(s) => CommandView::Supersede(
                s.graph_id,
                s.generation,
                s.controller@,
                resources_view(s.resources@),
            ),
            ControllerCommand::Retire(r) => CommandView::Retire(
                r.graph_id,
                r.last_generation,
                r.controller@,
                resources_view(r.resources@),
            ),
        }
    }
}

/// The graph a command is about.
pub open spec fn command_graph(c: CommandView) -> u128 {
    match c {
        CommandView::Reconcile(s) => s.graph_id,
        CommandView::Supersede(g, _, _, _) => g,
        CommandView::Retire(g, _, _, _) => g,
    }
}

/// The resources a command asks the controller to remove.
pub open spec fn cleanup_of(c: CommandView) -> Seq<ResourceView> {
    match c {
        CommandView::Reconcile(s) => s.superseded,
        CommandView::Supersede(_, _, _, r) => r,
        CommandView::Retire(_, _, _, r) => r,
    }
}

impl ControllerSlice {
    /// The bundle of `component`, if the slice carries one.
    pub fn bundle(&self, component: &str) -> (found: Option<ContentDigest>)
        ensures
            found matches Some(d) ==> exists|i: int|
                0 <= i < self.bundles@.len() && (#[trigger] self.bundles@[i]).0@ == component@ && self.bundles@[i].1 == d,
            found is None ==> forall|i: int| 0 <= i < self.bundles@.len() ==> (#[trigger] self.bundles@[i]).0@ != component@,
    {
        let n = self.bundles.len();
        let mut i: usize = 0;
        while i < n
            invariant
                n == self.bundles@.len(),
                i <= n,
                forall|k: int| 0 <= k < i ==> (#[trigger] self.bundles@[k]).0@ != component@,
            decreases n - i,
        {
            if self.bundles[i].0 == component.to_string() {
                return Some(self.bundles[i].1);
            }
            i = i + 1;
        }
        None
    }

    /// A copy of this slice.
    pub fn copied(&self) -> (copy: ControllerSlice)
        ensures
            copy@ == self@,
    {
        let mut bundles: Vec<(String, ContentDigest)> = Vec::new();
        let n = self.bundles.len();
        let mut i: usize = 0;
        while i < n
            invariant
                n == self.bundles@.len(),
                i <= n,
                bundles@.len() == i,
                bundles_view(bundles@) == bundles_view(self.bundles@).take(i as int),
            decreases n - i,
        {
            bundles.push((self.bundles[i].0.clone(), self.bundles[i].1));
            assert(bundles_view(bundles@)[i as int] == bundles_view(self.bundles@)[i as int]);
            assert(bundles_view(bundles@) =~= bundles_view(self.bundles@).take(i + 1));
            i = i + 1;
        }
        assert(bundles_view(self.bundles@).take(n as int) =~= bundles_view(self.bundles@));
        ControllerSlice {
            graph_id: self.graph_id,
            generation: self.generation,
            plan_digest: self.plan_digest,
            controller: self.controller.clone(),
            bundles,
            resources: copy_resources(&self.resources),
            superseded: copy_resources(&self.superseded),
        }
    }
}

impl ControllerCommand {
    /// The graph this command is about.
    pub fn graph_id(&self) -> (graph: u128)
        ensures
            graph == command_graph(self@),
    {
        match self {
            ControllerCommand::Reconcile(s) => s.graph_id,
            ControllerCommand::Supersede(s) => s.graph_id,
            ControllerCommand::Retire(r) => r.graph_id,
        }
    }

    /// A copy of this command.
    pub fn copied(&self) -> (copy: ControllerCommand)
        ensures
            copy@ == self@,
    {
        match self {
            ControllerCommand::Reconcile(s) => ControllerCommand::Reconcile(s.copied()),
            ControllerCommand::Supersede(s) => ControllerCommand::Supersede(
                Supersession {
                    graph_id: s.graph_id,
                    generation: s.generation,
                    controller: s.controller.clone(),
                    resources: copy_resources(&s.resources),
                },
            ),
            ControllerCommand::Retire(r) => ControllerCommand::Retire(
                Retirement {
                    graph_id: r.graph_id,
                    last_generation: r.last_generation,
                    controller: r.controller.clone(),
                    resources: copy_resources(&r.resources),
                },
            ),
        }
    }
}

// === Reports ===

/// How one resource of a slice ended.
#[derive(Clone, Debug, PartialEq, Eq)]
pub enum ResourceDispositionKind {
    Ready,
    Failed { message: String },
}

/// The disposition of one resource.
#[derive(Clone, Debug, PartialEq, Eq)]
pub struct ResourceDisposition {
    pub resource: u128,
    pub kind: ResourceDispositionKind,
}

/// What a controller reports for a slice it settled.
#[derive(Clone, Debug, PartialEq, Eq)]
pub struct ControllerReport {
    pub graph_id: u128,
    pub generation: u64,
    pub plan_digest: ContentDigest,
    pub controller: String,
    pub publication_id: Option<u128>,
    pub dispositions: Vec<ResourceDisposition>,
    pub outputs: Vec<ObservedOutput>,
}

/// A disposition as plain values: the resource and, when it failed, the
/// message.
pub open spec fn disposition_view(d: ResourceDisposition) -> (u128, Option<Seq<char>>) {
    (
        d.resource,
        match d.kind {
            ResourceDispositionKind::Ready => None,
            ResourceDispositionKind::Failed { message } => Some(message@),
        },
    )
}

/// Dispositions as plain values.
pub open spec fn dispositions_view(d: Seq<ResourceDisposition>) -> Seq<(u128, Option<Seq<char>>)> {
    d.map_values(|x: ResourceDisposition| disposition_view(x))
}

/// A report as plain values.
pub struct ReportView {
    pub graph_id: u128,
    pub generation: u64,
    pub plan_digest: ContentDigest,
    pub controller: Seq<char>,
    pub publication_id: Option<u128>,
    pub dispositions: Seq<(u128, Option<Seq<char>>)>,
    pub outputs: Seq<(u128, Seq<char>, Seq<char>)>,
}

impl View for ControllerReport {
    type V = ReportView;

    open spec fn view(&self) -> ReportView {
        ReportView {
            graph_id: self.graph_id,
            generation: self.generation,
            plan_digest: self.plan_digest,
            controller: self.controller@,
            publication_id: self.publication_id,
            dispositions: dispositions_view(self.dispositions@),
            outputs: observed_outputs_view(self.outputs@),
        }
    }
}

/// How one controller pass over a command ended.
#[derive(Clone, Debug, PartialEq, Eq)]
pub enum ControllerPass {
    Acted,
    Converged(Option<ControllerReport>),
    Retryable(String),
    Failed(ControllerReport),
}

/// A pass outcome as plain values.
pub enum PassView {
    Acted,
    Converged(Option<ReportView>),
    Retryable(Seq<char>),
    Failed(ReportView),
}

impl View for ControllerPass {
    type V = PassView;

    open spec fn view(&self) -> PassView {
        match self {
            ControllerPass::Acted => PassView::Acted,
            ControllerPass::Converged(r) => PassView::Converged(
                match r {
                    Some(x) => Some(x@),
                    None => None,
                },
            ),
            ControllerPass::Retryable(m) => PassView::Retryable(m@),
            ControllerPass::Failed(r) => PassView::Failed(r@),
        }
    }
}

/// The dispositions of a slice: every resource, in order, ready or failed
/// with `failure`.
pub open spec fn slice_dispositions(resources: Seq<ResourceView>, failure: Option<Seq<char>>) -> Seq<(u128, Option<Seq<char>>)> {
    resources.map_values(|r: ResourceView| (r.id, failure))
}

/// An optional text as plain values.
pub open spec fn text_option_view(o: Option<String>) -> Option<Seq<char>> {
    match o {
        Some(m) => Some(m@),
        None => None,
    }
}

fn dispositions_for(resources: &Vec<Resource>, failure: &Option<String>) -> (d: Vec<ResourceDisposition>)
    ensures
        dispositions_view(d@) == slice_dispositions(resources_view(resources@), text_option_view(*failure)),
{
    let ghost f = text_option_view(*failure);
    let mut out: Vec<ResourceDisposition> = Vec::new();
    let n = resources.len();
    let mut i: usize = 0;
    while i < n
        invariant
            n == resources@.len(),
            i <= n,
            out@.len() == i,
            f == text_option_view(*failure),
            dispositions_view(out@) == slice_dispositions(resources_view(resources@), f).take(i as int),
        decreases n - i,
    {
        let kind = match failure {
            Some(m) => ResourceDispositionKind::Failed { message: m.clone() },
            None => ResourceDispositionKind::Ready,
        };
        out.push(ResourceDisposition { resource: resources[i].id, kind });
        assert(dispositions_view(out@)[i as int] == slice_dispositions(resources_view(resources@), f)[i as int]);
        assert(dispositions_view(out@) =~= slice_dispositions(resources_view(resources@), f).take(i + 1));
        i = i + 1;
    }
    assert(slice_dispositions(resources_view(resources@), f).take(n as int) =~= slice_dispositions(
        resources_view(resources@),
        f,
    ));
    out
}

/// The report of a settled slice: every resource ready, with the observed
/// outputs and the publication, if any.
pub fn ready_report(slice: &ControllerSlice, publication: Option<u128>, outputs: Vec<ObservedOutput>) -> (report: ControllerReport)
    ensures
        report@ == (ReportView {
            graph_id: slice.graph_id,
            generation: slice.generation,
            plan_digest: slice.plan_digest,
            controller: slice.controller@,
            publication_id: publication,
            dispositions: slice_dispositions(slice@.resources, None),
            outputs: observed_outputs_view(outputs@),
        }),
{
    ControllerReport {
        graph_id: slice.graph_id,
        generation: slice.generation,
        plan_digest: slice.plan_digest,
        controller: slice.controller.clone(),
        publication_id: publication,
        dispositions: dispositions_for(&slice.resources, &None),
        outputs,
    }
}

/// The report of a slice that failed: every resource failed with
/// `message`, no outputs and no publication.
pub fn failed_report(slice: &ControllerSlice, message: String) -> (report: ControllerReport)
    ensures
        report@ == (ReportView {
            graph_id: slice.graph_id,
            generation: slice.generation,
            plan_digest: slice.plan_digest,
            controller: slice.controller@,
            publication_id: None,
            dispositions: slice_dispositions(slice@.resources, Some(message@)),
            outputs: Seq::empty(),
        }),
{
    let failure = Some(message);
    let dispositions = dispositions_for(&slice.resources, &failure);
    let outputs: Vec<ObservedOutput> = Vec::new();
    assert(observed_outputs_view(outputs@) =~= Seq::<(u128, Seq<char>, Seq<char>)>::empty());
    ControllerReport {
        graph_id: slice.graph_id,
        generation: slice.generation,
        plan_digest: slice.plan_digest,
        controller: slice.controller.clone(),
        publication_id: None,
        dispositions,
        outputs,
    }
}

impl ControllerReport {
    /// A copy of this report.
    pub fn copied(&self) -> (copy: ControllerReport)
        ensures
            copy@ == self@,
    {
        let mut dispositions: Vec<ResourceDisposition> = Vec::new();
        let n = self.dispositions.len();
        let mut i: usize = 0;
        while i < n
            invariant
                n == self.dispositions@.len(),
                i <= n,
                dispositions@.len() == i,
                dispositions_view(dispositions@) == dispositions_view(self.dispositions@).take(i as int),
            decreases n - i,
        {
            let d = &self.dispositions[i];
            let kind = match &d.kind {
                ResourceDispositionKind::Ready => ResourceDispositionKind::Ready,
                ResourceDispositionKind::Failed { message } => ResourceDispositionKind::Failed { message: message.clone() },
            };
            dispositions.push(ResourceDisposition { resource: d.resource, kind });
            assert(dispositions_view(dispositions@)[i as int] == dispositions_view(self.dispositions@)[i as int]);
            assert(dispositions_view(dispositions@) =~= dispositions_view(self.dispositions@).take(i + 1));
            i = i + 1;
        }
        assert(dispositions_view(self.dispositions@).take(n as int) =~= dispositions_view(self.dispositions@));
        ControllerReport {
            graph_id: self.graph_id,
            generation: self.generation,
            plan_digest: self.plan_digest,
            controller: self.controller.clone(),
            publication_id: self.publication_id,
            dispositions,
            outputs: copy_outputs(&self.outputs),
        }
    }

    /// Whether two reports hold the same values.
    pub fn same(&self, other: &ControllerReport) -> (same: bool)
        ensures
            same == (self@ == other@),
    {
        if self.graph_id != other.graph_id || self.generation != other.generation || self.plan_digest != other.plan_digest
            || self.controller != other.controller || self.publication_id != other.publication_id {
            return false;
        }
        let n = self.dispositions.len();
        if n != other.dispositions.len() {
            assert(self@.dispositions.len() != other@.dispositions.len());
            return false;
        }
        let mut i: usize = 0;
        while i < n
            invariant
                n == self.dispositions@.len(),
                n == other.dispositions@.len(),
                i <= n,
                forall|k: int| 0 <= k < i ==> dispositions_view(self.dispositions@)[k] == dispositions_view(other.dispositions@)[k],
            decreases n - i,
        {
            let a = &self.dispositions[i];
            let b = &other.dispositions[i];
            let equal = a.resource == b.resource && match (&a.kind, &b.kind) {
                (ResourceDispositionKind::Ready, ResourceDispositionKind::Ready) => true,
                (ResourceDispositionKind::Failed { message: x }, ResourceDispositionKind::Failed { message: y }) => *x == *y,
                _ => false,
            };
            if !equal {
                assert(dispositions_view(self.dispositions@)[i as int] != dispositions_view(other.dispositions@)[i as int]);
                return false;
            }
            i = i + 1;
        }
        assert(dispositions_view(self.dispositions@) =~= dispositions_view(other.dispositions@));
        let m = self.outputs.len();
        if m != other.outputs.len() {
            assert(self@.outputs.len() != other@.outputs.len());
            return false;
        }
        let mut j: usize = 0;
        while j < m
            invariant
                m == self.outputs@.len(),
                m == other.outputs@.len(),
                j <= m,
                forall|k: int| 0 <= k < j ==> observed_outputs_view(self.outputs@)[k] == observed_outputs_view(other.outputs@)[k],
            decreases m - j,
        {
            let a = &self.outputs[j];
            let b = &other.outputs[j];
            if a.resource != b.resource || a.name != b.name || a.value != b.value {
                assert(observed_outputs_view(self.outputs@)[j as int] != observed_outputs_view(other.outputs@)[j as int]);
                return false;
            }
            j = j + 1;
        }
        assert(observed_outputs_view(self.outputs@) =~= observed_outputs_view(other.outputs@));
        true
    }
}

} // verus!

verus! {

/// A settled or failed slice answers for each of its resources once, in
/// order: a ready report with no failure for any of them, a failed report
/// with the same failure for every one.
pub proof fn law_slice_dispositions(resources: Seq<ResourceView>, failure: Option<Seq<char>>, k: int)
    ensures
        slice_dispositions(resources, failure).len() == resources.len(),
        0 <= k < resources.len() ==> slice_dispositions(resources, failure)[k] == (resources[k].id, failure),
{
}

} // verus!
