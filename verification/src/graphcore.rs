//! The decisions of the orchestrator core around evaluating a graph: which
//! create and update commands are admitted, what each input of a
//! component's snapshot holds, how many evaluation rounds run, which plan
//! the interpretations make, and whether it differs from the plan in force.

use vstd::prelude::*;

use crate::evaluation::{json_view, InputState, JsonValue, OutputRef};
use crate::plan::BlockedMarker;
use crate::resource::{copy_resources, resources_view, ContentDigest, Resource, ResourceView};

verus! {

/// Why the core refuses a command on a graph.
#[derive(Clone, Copy, Debug, PartialEq, Eq, Structural)]
pub enum CommandRefusal {
    GraphAlreadyExists,
    GraphNotFound,
    GraphRetired,
    GenerationConflict { expected: u64, actual: u64 },
}

/// A graph may be created only when none has its id.
pub fn admit_create(exists: bool) -> (r: Result<(), CommandRefusal>)
    ensures
        exists ==> r == Err::<(), CommandRefusal>(CommandRefusal::GraphAlreadyExists),
        !exists ==> r is Ok,
{
    if exists {
        Err(CommandRefusal::GraphAlreadyExists)
    } else {
        Ok(())
    }
}

/// An update of a graph found as `found` (whether it is retired, and its
/// generation) that expects `expected`: the graph must exist, not be
/// retired, and be at the expected generation.
pub fn admit_update(found: Option<(bool, u64)>, expected: u64) -> (r: Result<(), CommandRefusal>)
    ensures
        match found {
            None => r == Err::<(), CommandRefusal>(CommandRefusal::GraphNotFound),
            Some((retired, generation)) => if retired {
                r == Err::<(), CommandRefusal>(CommandRefusal::GraphRetired)
            } else if generation != expected {
                r == Err::<(), CommandRefusal>(CommandRefusal::GenerationConflict { expected, actual: generation })
            } else {
                r is Ok
            },
        },
{
    match found {
        None => Err(CommandRefusal::GraphNotFound),
        Some((retired, generation)) => {
            if retired {
                Err(CommandRefusal::GraphRetired)
            } else if generation != expected {
                Err(CommandRefusal::GenerationConflict { expected, actual: generation })
            } else {
                Ok(())
            }
        },
    }
}

// === Snapshot cells ===

/// The value of a configuration input: its binding, else its default. A
/// validated graph has one of them.
pub fn config_value(binding: Option<&JsonValue>, default: Option<&JsonValue>) -> (v: JsonValue)
    requires
        binding is Some || default is Some,
    ensures
        match binding {
            Some(b) => json_view(v) == json_view(*b),
            None => json_view(v) == json_view(*default->Some_0),
        },
{
    match binding {
        Some(b) => b.copied(),
        None => match default {
            Some(d) => d.copied(),
            None => JsonValue::Null,
        },
    }
}

/// What an input fed by another component's output holds: the recorded
/// value when there is one; otherwise absent when the producer's
/// interpretation is complete, both the input and the output are optional,
/// and the producer did not declare the output; otherwise blocked.
/// `producer` is the producer's interpretation, if it has one: whether it
/// completed and whether it declared the output.
pub fn output_input_state(
    recorded: Option<&JsonValue>,
    producer: Option<(bool, bool)>,
    input_optional: bool,
    output_optional: bool,
) -> (s: InputState)
    ensures
        match recorded {
            Some(v) => s matches InputState::Available(x) && json_view(x) == json_view(*v),
            None => if producer matches Some((complete, declared)) && complete && input_optional && output_optional
                && !declared {
                s is Absent
            } else {
                s is Blocked
            },
        },
{
    match recorded {
        Some(v) => InputState::Available(v.copied()),
        None => match producer {
            Some((complete, declared)) => {
                if complete && input_optional && output_optional && !declared {
                    InputState::Absent
                } else {
                    InputState::Blocked
                }
            },
            None => InputState::Blocked,
        },
    }
}

// === Evaluation rounds ===

/// The evaluation rounds of a graph: at most one more than its components,
/// stopping early once a round leaves every interpretation as it was.
pub struct EvaluationRounds {
    max: usize,
    done: usize,
}

impl EvaluationRounds {
    /// The most rounds that may run.
    pub closed spec fn max(&self) -> nat {
        self.max as nat
    }

    /// The rounds run so far.
    pub closed spec fn done(&self) -> nat {
        self.done as nat
    }

    /// Rounds for a graph of `components` components.
    pub fn start(components: usize) -> (r: Self)
        ensures
            r.max() == if components + 1 > usize::MAX { usize::MAX as int } else { components + 1 },
            r.done() == 0,
    {
        EvaluationRounds { max: components.saturating_add(1), done: 0 }
    }

    /// Ends a round in which the interpretations `changed` or not, and says
    /// whether another round runs: only after a change, and never past the
    /// most rounds.
    pub fn finish_round(&mut self, changed: bool) -> (again: bool)
        requires
            old(self).done() < old(self).max(),
        ensures
            final(self).max() == old(self).max(),
            final(self).done() == old(self).done() + 1,
            again == (changed && final(self).done() < final(self).max()),
    {
        self.done = self.done + 1;
        changed && self.done < self.max
    }
}

// === The plan the interpretations make ===

/// The interpretation of one component: its name, the resources it
/// returned, and the output it is blocked on, if any.
#[derive(Debug)]
pub struct InterpretedComponent {
    pub component: String,
    pub resources: Vec<Resource>,
    pub blocked_on: Option<OutputRef>,
}

/// The resources of the interpretations, one component after another.
pub open spec fn plan_resources(s: Seq<InterpretedComponent>) -> Seq<ResourceView>
    decreases s.len(),
{
    if s.len() == 0 {
        Seq::empty()
    } else {
        plan_resources(s.drop_last()) + resources_view(s.last().resources@)
    }
}

/// The blocked components, in order, each with the output it waits on.
pub open spec fn plan_blocked(s: Seq<InterpretedComponent>) -> Seq<(Seq<char>, Seq<(Seq<char>, Seq<char>)>)>
    decreases s.len(),
{
    if s.len() == 0 {
        Seq::empty()
    } else {
        let rest = plan_blocked(s.drop_last());
        match s.last().blocked_on {
            Some(o) => rest.push((s.last().component@, seq![(o.component@, o.output@)])),
            None => rest,
        }
    }
}

/// A blocked marker as plain values.
pub open spec fn marker_view(m: BlockedMarker) -> (Seq<char>, Seq<(Seq<char>, Seq<char>)>) {
    (m.component@, m.blocked_on@.map_values(|o: OutputRef| (o.component@, o.output@)))
}

/// The resources and blocked markers of the plan that `interpretations`
/// (in component order) make.
pub fn plan_parts(interpretations: &Vec<InterpretedComponent>) -> (parts: (Vec<Resource>, Vec<BlockedMarker>))
    ensures
        resources_view(parts.0@) == plan_resources(interpretations@),
        parts.1@.map_values(|m: BlockedMarker| marker_view(m)) == plan_blocked(interpretations@),
{
    let mut resources: Vec<Resource> = Vec::new();
    let mut blocked: Vec<BlockedMarker> = Vec::new();
    let mut k: usize = 0;
    assert(interpretations@.take(0) =~= Seq::<InterpretedComponent>::empty());
    assert(resources_view(resources@) =~= Seq::<ResourceView>::empty());
    assert(blocked@.map_values(|m: BlockedMarker| marker_view(m)) =~= Seq::<(Seq<char>, Seq<(Seq<char>, Seq<char>)>)>::empty());
    while k < interpretations.len()
        invariant
            k <= interpretations@.len(),
            resources_view(resources@) == plan_resources(interpretations@.take(k as int)),
            blocked@.map_values(|m: BlockedMarker| marker_view(m)) == plan_blocked(interpretations@.take(k as int)),
        decreases interpretations@.len() - k,
    {
        let c = &interpretations[k];
        assert(interpretations@.take(k + 1).drop_last() =~= interpretations@.take(k as int));
        assert(interpretations@.take(k + 1).last() == interpretations@[k as int]);
        let mut copy = copy_resources(&c.resources);
        let ghost before = resources@;
        resources.append(&mut copy);
        assert(resources_view(resources@) =~= resources_view(before) + resources_view(c.resources@));
        match &c.blocked_on {
            Some(o) => {
                let ghost prior = blocked@;
                let source = OutputRef { component: o.component.clone(), output: o.output.clone() };
                let marker = BlockedMarker { component: c.component.clone(), blocked_on: vec![source] };
                assert(marker_view(marker).1 =~= seq![(o.component@, o.output@)]);
                blocked.push(marker);
                assert(blocked@.map_values(|m: BlockedMarker| marker_view(m)) =~= prior.map_values(
                    |m: BlockedMarker| marker_view(m),
                ).push(marker_view(marker)));
            },
            None => {},
        }
        k = k + 1;
    }
    assert(interpretations@.take(interpretations@.len() as int) =~= interpretations@);
    (resources, blocked)
}

/// The plan in force already is the plan made now: same generation and
/// digest. Then nothing is dispatched.
pub fn plan_unchanged(previous: Option<(u64, ContentDigest)>, generation: u64, digest: ContentDigest) -> (same: bool)
    ensures
        same == (previous == Some((generation, digest))),
{
    match previous {
        Some((g, d)) => g == generation && d == digest,
        None => false,
    }
}

} // verus!

verus! {

/// `m` is the blocked marker of `c`: its component and the output it
/// waits on.
pub open spec fn blocked_entry(c: InterpretedComponent, m: (Seq<char>, Seq<(Seq<char>, Seq<char>)>)) -> bool {
    match c.blocked_on {
        Some(o) => m == (c.component@, seq![(o.component@, o.output@)]),
        None => false,
    }
}

/// A plan holds exactly the resources of its components' interpretations,
/// and marks as blocked exactly the components whose interpretation waits
/// on an output, each with that output.
pub proof fn law_plan_parts(s: Seq<InterpretedComponent>, r: ResourceView, m: (Seq<char>, Seq<(Seq<char>, Seq<char>)>))
    ensures
        plan_resources(s).contains(r) <==> exists|i: int| 0 <= i < s.len() && resources_view((#[trigger] s[i]).resources@).contains(r),
        plan_blocked(s).contains(m) <==> exists|i: int|
            0 <= i < s.len() && blocked_entry(#[trigger] s[i], m),
    decreases s.len(),
{
    if s.len() > 0 {
        let front = s.drop_last();
        law_plan_parts(front, r, m);
        let last = s.last();
        let a = plan_resources(front);
        let b = resources_view(last.resources@);
        assert(plan_resources(s) == a + b);
        assert((a + b).contains(r) <==> a.contains(r) || b.contains(r)) by {
            if (a + b).contains(r) {
                let k = choose|k: int| 0 <= k < (a + b).len() && (a + b)[k] == r;
                if k < a.len() {
                    assert(a[k] == r);
                } else {
                    assert(b[k - a.len()] == r);
                }
            }
            if a.contains(r) {
                let k = choose|k: int| 0 <= k < a.len() && a[k] == r;
                assert((a + b)[k] == r);
            }
            if b.contains(r) {
                let k = choose|k: int| 0 <= k < b.len() && b[k] == r;
                assert((a + b)[a.len() + k] == r);
            }
        }
        if exists|i: int| 0 <= i < front.len() && resources_view((#[trigger] front[i]).resources@).contains(r) {
            let i = choose|i: int| 0 <= i < front.len() && resources_view((#[trigger] front[i]).resources@).contains(r);
            assert(s[i] == front[i]);
        }
        if exists|i: int| 0 <= i < s.len() && resources_view((#[trigger] s[i]).resources@).contains(r) {
            let i = choose|i: int| 0 <= i < s.len() && resources_view((#[trigger] s[i]).resources@).contains(r);
            if i < front.len() {
                assert(front[i] == s[i]);
            }
        }
        assert(s[s.len() - 1] == last);
        let rest = plan_blocked(front);
        if let Some(o) = last.blocked_on {
            let x = (last.component@, seq![(o.component@, o.output@)]);
            assert(rest.push(x).contains(m) <==> rest.contains(m) || x == m) by {
                if rest.push(x).contains(m) {
                    let k = choose|k: int| 0 <= k < rest.len() + 1 && rest.push(x)[k] == m;
                    if k < rest.len() {
                        assert(rest[k] == m);
                    }
                }
                if rest.contains(m) {
                    let k = choose|k: int| 0 <= k < rest.len() && rest[k] == m;
                    assert(rest.push(x)[k] == m);
                }
                assert(rest.push(x)[rest.len() as int] == x);
            }
        }
        if exists|i: int|
            0 <= i < front.len() && blocked_entry(#[trigger] front[i], m) {
            let i = choose|i: int|
                0 <= i < front.len() && blocked_entry(#[trigger] front[i], m);
            assert(s[i] == front[i]);
        }
        if exists|i: int|
            0 <= i < s.len() && blocked_entry(#[trigger] s[i], m) {
            let i = choose|i: int|
                0 <= i < s.len() && blocked_entry(#[trigger] s[i], m);
            if i < front.len() {
                assert(front[i] == s[i]);
            }
        }
    }
}

} // verus!
