//! Simulation pieces: the scenario size, how a run ended, and a fake
//! target that applies operations idempotently under scripted faults.

use vstd::prelude::*;

use crate::text::text_equal;

verus! {

/// The size of a simulated graph: how many source components it holds.
#[derive(Clone, Copy, Debug, PartialEq, Eq, Structural)]
pub struct Scenario {
    pub source_count: u8,
}

impl Scenario {
    /// A scenario with `source_count` sources, at least one.
    pub fn bounded(source_count: u8) -> (scenario: Self)
        ensures
            scenario.source_count == if source_count == 0 { 1 } else { source_count },
    {
        Scenario { source_count: if source_count == 0 { 1 } else { source_count } }
    }
}

/// How a simulated run ended.
#[derive(Clone, Copy, Debug, PartialEq, Eq, Structural)]
pub enum RunStatus {
    Converged,
    Stalled,
    BudgetExhausted,
}

/// What the fake target does with the next operation.
#[derive(Clone, Copy, Debug, PartialEq, Eq, Structural)]
pub enum TargetFault {
    Apply,
    FailBeforeApply,
    ApplyThenTimeout,
    PartialApply(usize),
    DelayOutput,
    DuplicateOutput,
    StaleOutput(u64),
}

/// An operation on the fake target, keyed for idempotency.
#[derive(Clone, Debug, PartialEq, Eq)]
pub struct TargetOperation {
    pub idempotency_key: String,
    pub generation: u64,
    pub controller: String,
    pub resources: Vec<u128>,
}

/// An operation as plain values.
pub open spec fn operation_view(o: TargetOperation) -> (Seq<char>, u64, Seq<char>, Seq<u128>) {
    (o.idempotency_key@, o.generation, o.controller@, o.resources@)
}

/// An idempotency key was reused for a different operation.
#[derive(Clone, Debug, PartialEq, Eq)]
pub struct IdempotencyViolation {
    pub key: String,
}

impl IdempotencyViolation {
    /// The error as its `Display` shows it.
    pub fn message(&self) -> (text: String)
        ensures
            text@ == "idempotency key "@ + self.key@ + " was reused for a different target operation"@,
    {
        let mut t = String::from_str("idempotency key ");
        t.append(self.key.as_str());
        t.append(" was reused for a different target operation");
        t
    }
}

/// The operation accepted under `key`: the first with it.
pub open spec fn accepted_under(ops: Seq<TargetOperation>, key: Seq<char>) -> Option<TargetOperation>
    decreases ops.len(),
{
    if ops.len() == 0 {
        None
    } else if ops[0].idempotency_key@ == key {
        Some(ops[0])
    } else {
        accepted_under(ops.drop_first(), key)
    }
}

/// The generation applied to `resource`: the last write of it.
pub open spec fn applied_to(applied: Seq<(u128, u64)>, resource: u128) -> Option<u64>
    decreases applied.len(),
{
    if applied.len() == 0 {
        None
    } else if applied.last().0 == resource {
        Some(applied.last().1)
    } else {
        applied_to(applied.drop_last(), resource)
    }
}

/// How many resources an operation reaches under `fault`.
pub open spec fn reach(fault: TargetFault, resources: nat) -> nat {
    match fault {
        TargetFault::FailBeforeApply => 0,
        TargetFault::PartialApply(count) => if count < resources {
            count as nat
        } else {
            resources
        },
        _ => resources,
    }
}

/// A target that records accepted operations and applied generations.
#[derive(Debug)]
pub struct FakeTarget {
    accepted: Vec<TargetOperation>,
    applied: Vec<(u128, u64)>,
    faults: Vec<TargetFault>,
}

impl FakeTarget {
    /// The operation accepted under `key`, if any.
    pub closed spec fn accepted_view(&self, key: Seq<char>) -> Option<TargetOperation> {
        accepted_under(self.accepted@, key)
    }

    /// The generation applied to `resource`, if any.
    pub closed spec fn applied_view(&self, resource: u128) -> Option<u64> {
        applied_to(self.applied@, resource)
    }

    /// The faults still scripted, the next first.
    pub closed spec fn scripted(&self) -> Seq<TargetFault> {
        self.faults@
    }

    /// A target with nothing accepted, applied or scripted.
    pub fn new() -> (target: Self)
        ensures
            forall|key: Seq<char>| target.accepted_view(key) is None,
            forall|r: u128| target.applied_view(r) is None,
            target.scripted().len() == 0,
    {
        FakeTarget { accepted: Vec::new(), applied: Vec::new(), faults: Vec::new() }
    }

    /// Scripts `faults` for the next operations.
    pub fn script(&mut self, faults: Vec<TargetFault>)
        ensures
            final(self).scripted() == old(self).scripted() + faults@,
            forall|key: Seq<char>| final(self).accepted_view(key) == old(self).accepted_view(key),
            forall|r: u128| final(self).applied_view(r) == old(self).applied_view(r),
    {
        let mut more = faults;
        self.faults.append(&mut more);
    }

    /// The generation applied to `resource`, if any.
    pub fn generation_of(&self, resource: u128) -> (generation: Option<u64>)
        ensures
            generation == self.applied_view(resource),
    {
        let mut i = self.applied.len();
        assert(self.applied@.take(i as int) =~= self.applied@);
        while i > 0
            invariant
                i <= self.applied@.len(),
                applied_to(self.applied@, resource) == applied_to(self.applied@.take(i as int), resource),
            decreases i,
        {
            let ghost prefix = self.applied@.take(i as int);
            assert(prefix.last() == self.applied@[i - 1]);
            if self.applied[i - 1].0 == resource {
                return Some(self.applied[i - 1].1);
            }
            assert(prefix.drop_last() =~= self.applied@.take(i - 1));
            i = i - 1;
        }
        None
    }

    fn find_accepted(&self, key: &str) -> (at: Option<usize>)
        ensures
            at matches Some(i) ==> i < self.accepted@.len() && self.accepted_view(key@) == Some(self.accepted@[i as int]),
            at is None ==> self.accepted_view(key@) is None,
    {
        let n = self.accepted.len();
        let mut i: usize = 0;
        assert(self.accepted@.skip(0) =~= self.accepted@);
        while i < n
            invariant
                n == self.accepted@.len(),
                i <= n,
                accepted_under(self.accepted@, key@) == accepted_under(self.accepted@.skip(i as int), key@),
            decreases n - i,
        {
            assert(self.accepted@.skip(i as int)[0] == self.accepted@[i as int]);
            if text_equal(self.accepted[i].idempotency_key.as_str(), key) {
                return Some(i);
            }
            assert(self.accepted@.skip(i as int).drop_first() =~= self.accepted@.skip(i + 1));
            i = i + 1;
        }
        None
    }

    /// Applies `operation` once: a replay of an accepted operation changes
    /// nothing and reports no new application; another operation under an
    /// accepted key is a violation; a new operation is accepted, the next
    /// scripted fault decides how many of its resources get its generation,
    /// and whether it reports success.
    #[verifier::rlimit(40)]
    pub fn apply(&mut self, operation: TargetOperation) -> (r: Result<bool, IdempotencyViolation>)
        ensures
            old(self).accepted_view(operation.idempotency_key@) matches Some(previous) ==> {
                &&& operation_view(previous) == operation_view(operation) ==> r == Ok::<bool, IdempotencyViolation>(false)
                &&& operation_view(previous) != operation_view(operation) ==> (r matches Err(v) && v.key@
                    == operation.idempotency_key@)
                &&& forall|key: Seq<char>| final(self).accepted_view(key) == old(self).accepted_view(key)
                &&& forall|res: u128| final(self).applied_view(res) == old(self).applied_view(res)
                &&& final(self).scripted() == old(self).scripted()
            },
            old(self).accepted_view(operation.idempotency_key@) is None ==> {
                let fault = if old(self).scripted().len() > 0 {
                    old(self).scripted()[0]
                } else {
                    TargetFault::Apply
                };
                let reached = operation.resources@.take(reach(fault, operation.resources@.len()) as int);
                &&& final(self).accepted_view(operation.idempotency_key@) matches Some(o) && operation_view(o) == operation_view(
                    operation,
                )
                &&& forall|key: Seq<char>| key != operation.idempotency_key@ ==> final(self).accepted_view(key)
                    == old(self).accepted_view(key)
                &&& forall|res: u128| #[trigger] final(self).applied_view(res) == if reached.contains(res) {
                    Some(operation.generation)
                } else {
                    old(self).applied_view(res)
                }
                &&& final(self).scripted() == if old(self).scripted().len() > 0 {
                    old(self).scripted().drop_first()
                } else {
                    old(self).scripted()
                }
                &&& r == Ok::<bool, IdempotencyViolation>(
                    !(fault == TargetFault::FailBeforeApply || fault == TargetFault::ApplyThenTimeout),
                )
            },
    {
        if let Some(i) = self.find_accepted(operation.idempotency_key.as_str()) {
            proof {
                lemma_accepted_key(self.accepted@, operation.idempotency_key@);
            }
            let previous = &self.accepted[i];
            let same = previous.generation == operation.generation && text_equal(
                previous.controller.as_str(),
                operation.controller.as_str(),
            ) && same_resources(&previous.resources, &operation.resources);
            if !same {
                return Err(IdempotencyViolation { key: operation.idempotency_key });
            }
            return Ok(false);
        }
        let ghost old_accepted = self.accepted@;
        let ghost old_applied = self.applied@;
        let fault = if self.faults.len() > 0 {
            self.faults.remove(0)
        } else {
            TargetFault::Apply
        };
        assert(self.faults@ =~= if old(self).faults@.len() > 0 {
            old(self).faults@.drop_first()
        } else {
            old(self).faults@
        });
        let ghost faults_after = self.faults@;
        let n = operation.resources.len();
        let count = match fault {
            TargetFault::FailBeforeApply => 0,
            TargetFault::PartialApply(c) => if c < n {
                c
            } else {
                n
            },
            _ => n,
        };
        let ghost reached = operation.resources@.take(count as int);
        let mut k: usize = 0;
        while k < count
            invariant
                count <= n,
                n == operation.resources@.len(),
                reached == operation.resources@.take(count as int),
                k <= count,
                self.accepted@ == old_accepted,
                self.faults@ == faults_after,
                forall|res: u128| #[trigger] applied_to(self.applied@, res) == if operation.resources@.take(k as int).contains(res) {
                    Some(operation.generation)
                } else {
                    applied_to(old_applied, res)
                },
            decreases count - k,
        {
            let res = operation.resources[k];
            let ghost before = self.applied@;
            self.applied.push((res, operation.generation));
            proof {
                assert(self.applied@.drop_last() =~= before);
                assert(self.applied@.last() == (res, operation.generation));
                assert forall|x: u128| #[trigger] applied_to(self.applied@, x) == if operation.resources@.take(k + 1).contains(x) {
                    Some(operation.generation)
                } else {
                    applied_to(old_applied, x)
                } by {
                    assert(operation.resources@.take(k + 1) =~= operation.resources@.take(k as int).push(res));
                    if x != res {
                        assert(applied_to(self.applied@, x) == applied_to(before, x));
                        assert(applied_to(before, x) == if operation.resources@.take(k as int).contains(x) {
                            Some(operation.generation)
                        } else {
                            applied_to(old_applied, x)
                        });
                        assert(operation.resources@.take(k + 1).contains(x) == operation.resources@.take(k as int).contains(x));
                    } else {
                        assert(operation.resources@.take(k + 1)[k as int] == x);
                    }
                }
            }
            k = k + 1;
        }
        let ghost key_view = operation.idempotency_key@;
        let failed = fault == TargetFault::FailBeforeApply || fault == TargetFault::ApplyThenTimeout;
        let ghost op = operation;
        self.accepted.push(operation);
        proof {
            lemma_accepted_push(old_accepted, op, key_view);
        }
        Ok(!failed)
    }
}

proof fn lemma_accepted_push(ops: Seq<TargetOperation>, op: TargetOperation, key: Seq<char>)
    requires
        accepted_under(ops, op.idempotency_key@) is None,
        key == op.idempotency_key@,
    ensures
        accepted_under(ops.push(op), key) == Some(op),
        forall|other: Seq<char>| other != key ==> accepted_under(ops.push(op), other) == accepted_under(ops, other),
    decreases ops.len(),
{
    let p = ops.push(op);
    if ops.len() > 0 {
        assert(p[0] == ops[0]);
        assert(ops[0].idempotency_key@ != key);
        assert(p.drop_first() =~= ops.drop_first().push(op));
        lemma_accepted_push(ops.drop_first(), op, key);
        assert forall|other: Seq<char>| other != key implies accepted_under(p, other) == accepted_under(ops, other) by {
            if ops[0].idempotency_key@ != other {
                assert(accepted_under(p, other) == accepted_under(p.drop_first(), other));
                assert(accepted_under(ops.drop_first().push(op), other) == accepted_under(ops.drop_first(), other));
                assert(accepted_under(ops, other) == accepted_under(ops.drop_first(), other));
            } else {
                assert(accepted_under(p, other) == Some(p[0]));
                assert(accepted_under(ops, other) == Some(ops[0]));
            }
        }
    } else {
        assert(p[0] == op);
        assert(p.drop_first() =~= Seq::<TargetOperation>::empty());
        assert forall|other: Seq<char>| other != key implies accepted_under(p, other) == accepted_under(ops, other) by {
            assert(op.idempotency_key@ != other);
            assert(accepted_under(p.drop_first(), other) is None);
            assert(accepted_under(p, other) == accepted_under(p.drop_first(), other));
            assert(accepted_under(ops, other) is None);
        }
    }
}

proof fn lemma_accepted_key(ops: Seq<TargetOperation>, key: Seq<char>)
    ensures
        accepted_under(ops, key) matches Some(o) ==> o.idempotency_key@ == key,
    decreases ops.len(),
{
    if ops.len() > 0 && ops[0].idempotency_key@ != key {
        lemma_accepted_key(ops.drop_first(), key);
    }
}

fn same_resources(a: &Vec<u128>, b: &Vec<u128>) -> (same: bool)
    ensures
        same == (a@ == b@),
{
    if a.len() != b.len() {
        return false;
    }
    let mut i: usize = 0;
    while i < a.len()
        invariant
            a@.len() == b@.len(),
            i <= a@.len(),
            forall|j: int| 0 <= j < i ==> a@[j] == b@[j],
        decreases a@.len() - i,
    {
        if a[i] != b[i] {
            return false;
        }
        i = i + 1;
    }
    assert(a@ =~= b@);
    true
}

} // verus!

verus! {

/// How far a faulted operation gets: failing before applying reaches no
/// resource, a partial application reaches the first `count` (all when
/// there are fewer), and every other fault, or none, reaches all of them;
/// never more than there are.
pub proof fn law_fault_reach(fault: TargetFault, resources: nat)
    ensures
        reach(fault, resources) <= resources,
        fault == TargetFault::FailBeforeApply ==> reach(fault, resources) == 0,
        fault matches TargetFault::PartialApply(count) ==> reach(fault, resources) == if count < resources {
            count as nat
        } else {
            resources
        },
        (fault == TargetFault::Apply || fault == TargetFault::ApplyThenTimeout || fault is DelayOutput || fault is DuplicateOutput
            || fault is StaleOutput) ==> reach(fault, resources) == resources,
{
}

} // verus!
