//! The decisions of a controller lane: one lane per graph and controller
//! runs the current command, hands reports to the graph, and backs off after
//! failures.

use vstd::prelude::*;

use crate::controller::{ControllerPass, ControllerReport};

verus! {

/// The back-off before retry `attempt`, in seconds: doubling from one second
/// after the first failure, and never more than thirty.
pub open spec fn backoff_secs(attempt: u32) -> u64 {
    let shift: nat = if attempt == 0 {
        0
    } else if attempt - 1 > 5 {
        5
    } else {
        (attempt - 1) as nat
    };
    let doubled: nat = vstd::arithmetic::power2::pow2(shift);
    if doubled > 30 {
        30
    } else {
        doubled as u64
    }
}

/// The back-off before retry `attempt`, as `backoff_secs` states.
pub fn retry_delay(attempt: u32) -> (secs: u64)
    ensures
        secs == backoff_secs(attempt),
        1 <= secs <= 30,
{
    let shift: u32 = if attempt == 0 {
        0
    } else if attempt - 1 > 5 {
        5
    } else {
        attempt - 1
    };
    let mut doubled: u64 = 1;
    let mut i: u32 = 0;
    proof {
        vstd::arithmetic::power2::lemma2_to64();
    }
    while i < shift
        invariant
            i <= shift <= 5,
            doubled == vstd::arithmetic::power2::pow2(i as nat),
            doubled <= 32,
        decreases shift - i,
    {
        proof {
            vstd::arithmetic::power2::lemma_pow2_unfold((i + 1) as nat);
            vstd::arithmetic::power2::lemma2_to64();
        }
        doubled = doubled * 2;
        i = i + 1;
    }
    if doubled > 30 {
        30
    } else {
        doubled
    }
}

/// What a lane does next.
#[derive(Debug)]
pub enum LaneAction {
    /// Fetch the current command and run another pass at once.
    RunAgain,
    /// Hand this report to the graph.
    ApplyReport(ControllerReport),
    /// Wait this many seconds, then fetch the current command again.
    RetryAfter(u64),
    /// Wait for the next wake.
    Idle,
}

/// The lane's next step after a pass, and its new attempt count: a pass
/// that acted resets the count and runs again; a report goes to the graph;
/// a pass with nothing to report idles; a retryable failure counts one more
/// attempt and backs off.
pub fn after_pass(attempt: u32, pass: ControllerPass) -> (next: (u32, LaneAction))
    ensures
        match pass {
            ControllerPass::Acted => next.0 == 0 && next.1 is RunAgain,
            ControllerPass::Converged(Some(report)) => next.0 == attempt && next.1 == LaneAction::ApplyReport(report),
            ControllerPass::Failed(report) => next.0 == attempt && next.1 == LaneAction::ApplyReport(report),
            ControllerPass::Converged(None) => next.0 == attempt && next.1 is Idle,
            ControllerPass::Retryable(_) => next.0 == (if attempt == u32::MAX {
                u32::MAX
            } else {
                (attempt + 1) as u32
            }) && next.1 == LaneAction::RetryAfter(backoff_secs(next.0)),
        },
{
    match pass {
        ControllerPass::Acted => (0, LaneAction::RunAgain),
        ControllerPass::Converged(Some(report)) => (attempt, LaneAction::ApplyReport(report)),
        ControllerPass::Failed(report) => (attempt, LaneAction::ApplyReport(report)),
        ControllerPass::Converged(None) => (attempt, LaneAction::Idle),
        ControllerPass::Retryable(_) => {
            let next = attempt.saturating_add(1);
            (next, LaneAction::RetryAfter(retry_delay(next)))
        },
    }
}

/// The lane's next step after handing a report to the graph: once the graph
/// took it the lane idles; if the append failed it counts one more attempt
/// and backs off.
pub fn after_report(attempt: u32, applied: bool) -> (next: (u32, LaneAction))
    ensures
        applied ==> next.0 == attempt && next.1 is Idle,
        !applied ==> next.0 == (if attempt == u32::MAX {
            u32::MAX
        } else {
            (attempt + 1) as u32
        }) && next.1 == LaneAction::RetryAfter(backoff_secs(next.0)),
{
    if applied {
        (attempt, LaneAction::Idle)
    } else {
        let next = attempt.saturating_add(1);
        (next, LaneAction::RetryAfter(retry_delay(next)))
    }
}

} // verus!

verus! {

/// The back-off doubles from one second, retry after retry, and stays at
/// thirty seconds once doubling would pass it: the first retry (and a
/// retry counted as zero) waits one second, and each later one waits twice
/// the one before, but never more than thirty.
pub proof fn law_backoff_doubles_to_thirty(attempt: u32)
    requires
        1 <= attempt < u32::MAX,
    ensures
        backoff_secs(0) == 1,
        backoff_secs(1) == 1,
        1 <= backoff_secs(attempt) <= 30,
        backoff_secs((attempt + 1) as u32) == if 2 * backoff_secs(attempt) > 30 {
            30
        } else {
            2 * backoff_secs(attempt)
        },
{
    vstd::arithmetic::power2::lemma2_to64();
}

} // verus!
