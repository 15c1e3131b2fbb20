//! One reconciliation pass over a controller slice, resource by resource:
//! desired resources first and superseded ones after, each group in order
//! of the controller's rank and then of resource id. The first resource that
//! needs an action ends the pass; a pass in which every resource converged
//! reports their outputs and the evidence of what was observed.

use vstd::prelude::*;

use crate::resource::{ObservedOutput, ResourceConvergence, ResourceGoal};

verus! {

/// `keys[i]` sorts before `keys[j]`: a smaller rank, then a smaller id, then
/// the earlier position.
pub open spec fn visits_before(keys: Seq<(u8, u128)>, i: int, j: int) -> bool {
    ||| keys[i].0 < keys[j].0
    ||| (keys[i].0 == keys[j].0 && keys[i].1 < keys[j].1)
    ||| (keys[i].0 == keys[j].0 && keys[i].1 == keys[j].1 && i < j)
}

/// `order` visits every position of `keys` once, in `visits_before` order.
pub open spec fn visit_order_of(keys: Seq<(u8, u128)>, order: Seq<usize>) -> bool {
    &&& order.len() == keys.len()
    &&& forall|a: int| 0 <= a < order.len() ==> (#[trigger] order[a]) < keys.len()
    &&& forall|a: int, b: int| 0 <= a < b < order.len() ==> visits_before(keys, #[trigger] order[a] as int, #[trigger] order[b] as int)
}

fn key_not_after(other: (u8, u128), key: (u8, u128)) -> (r: bool)
    ensures
        r == (other.0 < key.0 || (other.0 == key.0 && other.1 <= key.1)),
{
    other.0 < key.0 || (other.0 == key.0 && other.1 <= key.1)
}

/// The positions of `keys` in the order a pass visits them: by rank, then
/// id, ties kept in place.
pub fn visit_order(keys: &Vec<(u8, u128)>) -> (order: Vec<usize>)
    ensures
        visit_order_of(keys@, order@),
{
    let mut order: Vec<usize> = Vec::new();
    let mut i: usize = 0;
    while i < keys.len()
        invariant
            i <= keys@.len(),
            order@.len() == i,
            forall|a: int| 0 <= a < order@.len() ==> (#[trigger] order@[a]) < i,
            forall|a: int, b: int|
                0 <= a < b < order@.len() ==> visits_before(keys@, #[trigger] order@[a] as int, #[trigger] order@[b] as int),
        decreases keys@.len() - i,
    {
        let key = keys[i];
        let mut pos: usize = 0;
        while pos < order.len() && key_not_after(keys[order[pos]], key)
            invariant
                i < keys@.len(),
                key == keys@[i as int],
                pos <= order@.len(),
                forall|a: int| 0 <= a < order@.len() ==> (#[trigger] order@[a]) < i,
                forall|a: int| 0 <= a < pos ==> visits_before(keys@, #[trigger] order@[a] as int, i as int),
            decreases order@.len() - pos,
        {
            pos = pos + 1;
        }
        let ghost before = order@;
        proof {
            assert forall|a: int| pos <= a < before.len() implies visits_before(keys@, i as int, #[trigger] before[a] as int) by {
                if a > pos {
                    assert(visits_before(keys@, before[pos as int] as int, before[a] as int));
                }
            }
        }
        order.insert(pos, i);
        proof {
            assert forall|a: int, b: int|
                0 <= a < b < order@.len() implies visits_before(keys@, #[trigger] order@[a] as int, #[trigger] order@[b] as int) by {
                if b < pos {
                    assert(order@[a] == before[a] && order@[b] == before[b]);
                } else if b == pos {
                    assert(order@[a] == before[a]);
                } else if a < pos {
                    assert(order@[a] == before[a] && order@[b] == before[b - 1]);
                    assert(visits_before(keys@, i as int, before[b - 1] as int));
                } else if a == pos {
                    assert(order@[b] == before[b - 1]);
                } else {
                    assert(order@[a] == before[a - 1] && order@[b] == before[b - 1]);
                }
            }
            assert forall|a: int| 0 <= a < order@.len() implies (#[trigger] order@[a]) < i + 1 by {
                if a < pos {
                    assert(order@[a] == before[a]);
                } else if a > pos {
                    assert(order@[a] == before[a - 1]);
                }
            }
        }
        i = i + 1;
    }
    order
}

/// What visiting one resource came to.
#[derive(Debug)]
pub enum ResourcePass {
    /// The controller acted on it.
    Acted,
    /// It already is as its goal asks.
    Converged(ResourceConvergence),
}

/// What a whole slice pass reports once every resource converged: the
/// outputs observed on the desired resources, in visit order, and their
/// evidence, each as its id, `=`, its evidence and `;`.
#[derive(Debug)]
pub struct SliceConvergence {
    pub outputs: Vec<ObservedOutput>,
    pub evidence: Vec<u8>,
}

/// How a slice pass ended.
#[derive(Debug)]
pub enum SlicePass {
    Acted,
    Converged(SliceConvergence),
}

/// What the caller does next.
#[derive(Debug)]
pub enum SliceStep {
    /// Observe the resource at this position of its group and decide it for
    /// this goal.
    Visit { index: usize, goal: ResourceGoal },
    /// The pass is over.
    Done(SlicePass),
}

/// The evidence a converged desired resource adds.
pub open spec fn evidence_entry(id_text: Seq<char>, evidence: Seq<u8>) -> Seq<u8> {
    vstd::utf8::encode_utf8(id_text) + seq![61u8] + evidence + seq![59u8]
}

/// A pass in progress: the visit orders of the desired and the superseded
/// resources, how many visits are done, and what converged so far.
#[derive(Debug)]
pub struct SliceRun {
    present: Vec<usize>,
    absent: Vec<usize>,
    visited: usize,
    convergence: SliceConvergence,
}

/// The step a run takes after `visited` visits.
pub open spec fn step_at(present: Seq<usize>, absent: Seq<usize>, visited: int) -> Option<(usize, ResourceGoal)> {
    if visited < present.len() {
        Some((present[visited], ResourceGoal::Present))
    } else if visited < present.len() + absent.len() {
        Some((absent[visited - present.len()], ResourceGoal::Absent))
    } else {
        None
    }
}

impl SliceRun {
    #[verifier::type_invariant]
    closed spec fn well_formed(&self) -> bool {
        &&& self.present@.len() + self.absent@.len() < usize::MAX
        &&& self.visited <= self.present@.len() + self.absent@.len()
    }

    /// The order in which desired resources are visited.
    pub closed spec fn present_order(&self) -> Seq<usize> {
        self.present@
    }

    /// The order in which superseded resources are visited.
    pub closed spec fn absent_order(&self) -> Seq<usize> {
        self.absent@
    }

    /// How many visits are done.
    pub closed spec fn visited(&self) -> int {
        self.visited as int
    }

    /// The outputs gathered so far.
    pub closed spec fn outputs(&self) -> Seq<ObservedOutput> {
        self.convergence.outputs@
    }

    /// The evidence gathered so far.
    pub closed spec fn evidence(&self) -> Seq<u8> {
        self.convergence.evidence@
    }

    fn next_step(&mut self) -> (step: SliceStep)
        ensures
            match step_at(old(self).present_order(), old(self).absent_order(), old(self).visited()) {
                Some((index, goal)) => step == (SliceStep::Visit { index, goal }) && *final(self) == *old(self),
                None => step matches SliceStep::Done(SlicePass::Converged(c)) && c.outputs@ == old(self).outputs()
                    && c.evidence@ == old(self).evidence() && final(self).visited() == old(self).visited()
                    && final(self).present_order() == old(self).present_order() && final(self).absent_order()
                    == old(self).absent_order() && final(self).outputs().len() == 0 && final(self).evidence().len()
                    == 0,
            },
    {
        proof {
            use_type_invariant(&*self);
        }
        if self.visited < self.present.len() {
            SliceStep::Visit { index: self.present[self.visited], goal: ResourceGoal::Present }
        } else if self.visited - self.present.len() < self.absent.len() {
            SliceStep::Visit { index: self.absent[self.visited - self.present.len()], goal: ResourceGoal::Absent }
        } else {
            let mut done = SliceConvergence { outputs: Vec::new(), evidence: Vec::new() };
            std::mem::swap(&mut done, &mut self.convergence);
            SliceStep::Done(SlicePass::Converged(done))
        }
    }

    /// Starts a pass over desired resources keyed by `present` and
    /// superseded ones keyed by `absent` (rank and id each), and says what to
    /// do first.
    pub fn start(present: &Vec<(u8, u128)>, absent: &Vec<(u8, u128)>) -> (out: (SliceRun, SliceStep))
        requires
            present@.len() + absent@.len() < usize::MAX,
        ensures
            visit_order_of(present@, out.0.present_order()),
            visit_order_of(absent@, out.0.absent_order()),
            out.0.visited() == 0,
            out.0.outputs().len() == 0,
            out.0.evidence().len() == 0,
            match step_at(out.0.present_order(), out.0.absent_order(), 0) {
                Some((index, goal)) => out.1 == (SliceStep::Visit { index, goal }),
                None => out.1 matches SliceStep::Done(SlicePass::Converged(c)) && c.outputs@.len() == 0
                    && c.evidence@.len() == 0,
            },
    {
        let mut run = SliceRun {
            present: visit_order(present),
            absent: visit_order(absent),
            visited: 0,
            convergence: SliceConvergence { outputs: Vec::new(), evidence: Vec::new() },
        };
        let step = run.next_step();
        (run, step)
    }

    /// Records what visiting the current resource came to, whose id reads
    /// `id_text`, and says what to do next. A failure to observe, decide or
    /// act ends the pass with that error, leaving the run as it was; an
    /// action ends the pass; a converged desired resource adds its outputs
    /// and its evidence entry; a converged superseded one adds nothing.
    pub fn record<E>(&mut self, id_text: &str, outcome: Result<ResourcePass, E>) -> (step: Result<SliceStep, E>)
        requires
            old(self).visited() < old(self).present_order().len() + old(self).absent_order().len(),
        ensures
            final(self).present_order() == old(self).present_order(),
            final(self).absent_order() == old(self).absent_order(),
            match outcome {
                Err(e) => step == Err::<SliceStep, E>(e) && final(self).visited() == old(self).visited()
                    && final(self).outputs() == old(self).outputs() && final(self).evidence() == old(self).evidence(),
                Ok(ResourcePass::Acted) => step matches Ok(SliceStep::Done(SlicePass::Acted)),
                Ok(ResourcePass::Converged(c)) => {
                    let present = old(self).visited() < old(self).present_order().len();
                    let outputs = if present {
                        old(self).outputs() + c.outputs@
                    } else {
                        old(self).outputs()
                    };
                    let evidence = if present {
                        old(self).evidence() + evidence_entry(id_text@, c.evidence@)
                    } else {
                        old(self).evidence()
                    };
                    &&& final(self).visited() == old(self).visited() + 1
                    &&& match step_at(old(self).present_order(), old(self).absent_order(), old(self).visited() + 1) {
                        Some((index, goal)) => step == Ok::<SliceStep, E>(SliceStep::Visit { index, goal })
                            && final(self).outputs() == outputs && final(self).evidence() == evidence,
                        None => step matches Ok(SliceStep::Done(SlicePass::Converged(done))) && done.outputs@ == outputs
                            && done.evidence@ == evidence,
                    }
                },
            },
    {
        proof {
            use_type_invariant(&*self);
        }
        let pass = match outcome {
            Err(e) => return Err(e),
            Ok(pass) => pass,
        };
        match pass {
            ResourcePass::Acted => Ok(SliceStep::Done(SlicePass::Acted)),
            ResourcePass::Converged(c) => {
                if self.visited < self.present.len() {
                    let mut gathered = SliceConvergence { outputs: Vec::new(), evidence: Vec::new() };
                    std::mem::swap(&mut gathered, &mut self.convergence);
                    let mut outputs = c.outputs;
                    gathered.outputs.append(&mut outputs);
                    let mut id = id_text.as_bytes_vec();
                    gathered.evidence.append(&mut id);
                    gathered.evidence.push(61u8);
                    let mut e = c.evidence;
                    gathered.evidence.append(&mut e);
                    gathered.evidence.push(59u8);
                    self.convergence = gathered;
                }
                self.visited = self.visited + 1;
                Ok(self.next_step())
            },
        }
    }
}

} // verus!

verus! {

/// A pass visits every desired resource, in its visit order, before any
/// superseded one, then every superseded one in its visit order, and then
/// stops: each visit is of a desired resource toward presence or of a
/// superseded one toward absence.
pub proof fn law_desired_before_superseded(present: Seq<usize>, absent: Seq<usize>, v: int, w: int)
    requires
        0 <= v,
        0 <= w,
    ensures
        step_at(present, absent, v) is Some <==> v < present.len() + absent.len(),
        (step_at(present, absent, v) matches Some((_, g)) && g == ResourceGoal::Present) && (step_at(present, absent, w) matches Some(
            (_, h),
        ) && h == ResourceGoal::Absent) ==> v < w,
        v < present.len() ==> step_at(present, absent, v) == Some((present[v], ResourceGoal::Present)),
        present.len() <= v < present.len() + absent.len() ==> step_at(present, absent, v) == Some(
            (absent[v - present.len()], ResourceGoal::Absent),
        ),
{
}

} // verus!
