//! Normalized simulation traces: each step's action and outcome with the
//! BLAKE3 hash of the canonical state after it.

use vstd::prelude::*;

use crate::digest::{blake3_digest, blake3_hash, blake3_keyed_digest, hex_encode, hex_text};
use crate::rng::Seed;

verus! {

/// One recorded step.
#[derive(Clone, Debug, PartialEq, Eq)]
pub struct TraceEvent {
    pub step: u64,
    pub action: String,
    pub outcome: String,
    pub state_hash: String,
}

/// A finished trace: the seeds it ran under, its steps and the hash of the
/// final canonical state.
#[derive(Clone, Debug, PartialEq, Eq)]
pub struct NormalizedTrace {
    pub root_seed: Seed,
    pub scheduler_seed: Seed,
    pub events: Vec<TraceEvent>,
    pub final_state_hash: String,
}

/// The text under which a canonical state is recorded: the lowercase hex of
/// its BLAKE3 hash.
pub open spec fn state_hash_text(canonical_state: Seq<u8>) -> Seq<char> {
    hex_text(blake3_digest(canonical_state))
}

/// One call of `record` took the steps from `before` to `after`: the old
/// steps stay and one more follows, numbered by its position.
pub open spec fn appends_step(before: Seq<TraceEvent>, after: Seq<TraceEvent>) -> bool {
    &&& after.len() == before.len() + 1
    &&& after.take(before.len() as int) == before
    &&& after.last().step == before.len()
}

/// The recorded steps before each of a run of `record` calls and after the
/// last, starting from a new recorder.
pub open spec fn record_run(runs: Seq<Seq<TraceEvent>>) -> bool {
    &&& runs.len() >= 1
    &&& runs[0].len() == 0
    &&& forall|i: int| 0 <= i < runs.len() - 1 ==> appends_step(#[trigger] runs[i], runs[i + 1])
}

/// After `n` calls of `record` on a new recorder the trace holds `n` steps,
/// and the step at position `i` is numbered `i`.
pub proof fn law_steps_are_numbered_by_position(runs: Seq<Seq<TraceEvent>>)
    requires
        record_run(runs),
    ensures
        runs.last().len() == runs.len() - 1,
        forall|j: int| 0 <= j < runs.last().len() ==> #[trigger] runs.last()[j].step == j,
{
    lemma_numbered(runs, runs.len() - 1);
}

proof fn lemma_numbered(runs: Seq<Seq<TraceEvent>>, k: int)
    requires
        record_run(runs),
        0 <= k < runs.len(),
    ensures
        runs[k].len() == k,
        forall|j: int| 0 <= j < k ==> #[trigger] runs[k][j].step == j,
    decreases k,
{
    if k > 0 {
        lemma_numbered(runs, k - 1);
        assert(appends_step(runs[k - 1], runs[k]));
        assert forall|j: int| 0 <= j < k implies #[trigger] runs[k][j].step == j by {
            if j < k - 1 {
                assert(runs[k].take(k - 1)[j] == runs[k][j]);
            }
        }
    }
}

/// Records the steps of a simulated run.
#[derive(Clone, Debug)]
pub struct TraceRecorder {
    root_seed: Seed,
    scheduler_seed: Seed,
    events: Vec<TraceEvent>,
}

impl TraceRecorder {
    /// The recorded steps so far.
    pub closed spec fn recorded(&self) -> Seq<TraceEvent> {
        self.events@
    }

    pub closed spec fn root_view(&self) -> Seq<u8> {
        self.root_seed.0@
    }

    pub closed spec fn scheduler_view(&self) -> Seq<u8> {
        self.scheduler_seed.0@
    }

    /// A recorder for a run under `root_seed`, whose scheduler draws from
    /// the `scheduler` child seed.
    pub fn new(root_seed: Seed) -> (recorder: Self)
        ensures
            recorder.recorded().len() == 0,
            recorder.root_view() == root_seed.0@,
            recorder.scheduler_view() == blake3_keyed_digest(root_seed.0@, vstd::utf8::encode_utf8("scheduler"@)),
    {
        TraceRecorder { root_seed, scheduler_seed: root_seed.child("scheduler"), events: Vec::new() }
    }

    /// Records a step numbered by its position in the trace.
    pub fn record(&mut self, action: String, outcome: String, canonical_state: &[u8])
        requires
            old(self).recorded().len() < u64::MAX,
        ensures
            final(self).root_view() == old(self).root_view(),
            final(self).scheduler_view() == old(self).scheduler_view(),
            appends_step(old(self).recorded(), final(self).recorded()),
            final(self).recorded().len() == old(self).recorded().len() + 1,
            final(self).recorded().take(old(self).recorded().len() as int) == old(self).recorded(),
            ({
                let e = final(self).recorded().last();
                &&& e.step == old(self).recorded().len()
                &&& e.action@ == action@
                &&& e.outcome@ == outcome@
                &&& e.state_hash@ == state_hash_text(canonical_state@)
            }),
    {
        let digest = blake3_hash(canonical_state);
        let state_hash = hex_encode(&digest);
        let step = self.events.len() as u64;
        self.events.push(TraceEvent { step, action, outcome, state_hash });
        assert(self.events@.take(self.events@.len() - 1) =~= old(self).events@);
    }

    /// The finished trace, with the hash of the final canonical state.
    pub fn finish(self, canonical_state: &[u8]) -> (trace: NormalizedTrace)
        ensures
            trace.root_seed.0@ == self.root_view(),
            trace.scheduler_seed.0@ == self.scheduler_view(),
            trace.events@ == self.recorded(),
            trace.final_state_hash@ == state_hash_text(canonical_state@),
    {
        let digest = blake3_hash(canonical_state);
        NormalizedTrace {
            root_seed: self.root_seed,
            scheduler_seed: self.scheduler_seed,
            events: self.events,
            final_state_hash: hex_encode(&digest),
        }
    }
}

} // verus!
