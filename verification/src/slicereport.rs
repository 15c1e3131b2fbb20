//! Screening a controller's slice report before it is recorded: replays of
//! a request or publication already recorded, refusals of a retired graph or
//! of a stale report, and the rules tying a publication id to whether the
//! report publishes.

use vstd::prelude::*;

use crate::validation::ReportValidationError;

verus! {

/// What the graph's history holds about a report's request id: the
/// fingerprint it was recorded with and the publication sequence it got.
#[derive(Clone, Copy, Debug, PartialEq, Eq, Structural)]
pub struct RequestReceipt {
    pub fingerprint: u128,
    pub publication_sequence: Option<u64>,
}

/// A report that names a publication id: the fingerprint of what it would
/// publish, and what the history holds for that id, if anything (its
/// fingerprint and publication sequence).
#[derive(Clone, Copy, Debug)]
pub struct PublicationCandidate {
    pub fingerprint: u128,
    pub recorded: Option<(u128, u64)>,
}

/// What becomes of a slice report.
#[derive(Debug)]
pub enum SliceReportDecision {
    /// The request was recorded before; answer with its publication
    /// sequence.
    Replayed(Option<u64>),
    /// The request id was recorded for another report.
    RequestIdReused,
    /// The publication was recorded before; answer with its sequence.
    PublicationReplayed(u64),
    /// The publication id was recorded for another publication.
    PublicationIdReused,
    /// The graph is retired.
    GraphRetired,
    /// The report is not about the current generation and head.
    Aborted { current_generation: u64 },
    /// The report does not validate against its slice.
    Refused(ReportValidationError),
    /// A publishing report names no publication id.
    PublicationIdRequired,
    /// A report that does not publish names a publication id.
    PublicationIdNonPublishing,
    /// The latest publication already published the same outputs under
    /// another id.
    PublicationChangedForUnchangedLevel,
    /// Record the report, publishing or not.
    Record { publishable: bool },
}

/// The decision, as plain values: its kind (in the order of the variants
/// above) and the number it carries, if any.
pub open spec fn decision_view(d: SliceReportDecision) -> (u8, Option<u64>) {
    match d {
        SliceReportDecision::Replayed(s) => (0, s),
        SliceReportDecision::RequestIdReused => (1, None),
        SliceReportDecision::PublicationReplayed(s) => (2, Some(s)),
        SliceReportDecision::PublicationIdReused => (3, None),
        SliceReportDecision::GraphRetired => (4, None),
        SliceReportDecision::Aborted { current_generation } => (5, Some(current_generation)),
        SliceReportDecision::Refused(_) => (6, None),
        SliceReportDecision::PublicationIdRequired => (7, None),
        SliceReportDecision::PublicationIdNonPublishing => (8, None),
        SliceReportDecision::PublicationChangedForUnchangedLevel => (9, None),
        SliceReportDecision::Record { publishable } => (10, if publishable { Some(1) } else { Some(0) }),
    }
}

/// Screens a slice report. `request` is what the history holds for the
/// report's request id, `request_fingerprint` the report's own;
/// `publication` is present when the report names a publication id; the
/// graph's retirement, current generation and head sequence come next, then
/// the report's generation and sequence; `publishable` is what validating the
/// report against its slice gave; `latest_publication` is the fingerprint of
/// the controller's latest publication.
///
/// In order: a recorded request replays (or, recorded with another
/// fingerprint, is a reused id); a recorded publication replays likewise; a
/// retired graph refuses; a report off the current generation or head
/// aborts; a report that does not validate is refused; a publishing report
/// needs a publication id and one that does not publish must not name one; a
/// publication identical to the latest one is refused; anything else is
/// recorded.
pub fn screen_slice_report(
    request: Option<RequestReceipt>,
    request_fingerprint: u128,
    publication: Option<PublicationCandidate>,
    retired: bool,
    generation: u64,
    head: Option<u64>,
    report_generation: u64,
    report_sequence: u64,
    publishable: Result<bool, ReportValidationError>,
    latest_publication: Option<u128>,
) -> (d: SliceReportDecision)
    ensures
        request matches Some(q) ==> decision_view(d) == if q.fingerprint == request_fingerprint {
            (0u8, q.publication_sequence)
        } else {
            (1u8, None)
        },
        request is None ==> match publication {
            Some(p) => match p.recorded {
                Some((f, s)) => decision_view(d) == if f == p.fingerprint {
                    (2u8, Some(s))
                } else {
                    (3u8, None)
                },
                None => true,
            },
            None => true,
        },
        ({
            let fresh = request is None && !(publication matches Some(p) && (p.recorded is Some));
            let current = report_generation == generation && head == Some(report_sequence);
            &&& fresh && retired ==> decision_view(d) == (4u8, None::<u64>)
            &&& fresh && !retired && !current ==> decision_view(d) == (5u8, Some(generation))
            &&& fresh && !retired && current ==> match publishable {
                Err(e) => d == SliceReportDecision::Refused(e),
                Ok(true) => match publication {
                    None => decision_view(d) == (7u8, None::<u64>),
                    Some(p) => if latest_publication == Some(p.fingerprint) {
                        decision_view(d) == (9u8, None::<u64>)
                    } else {
                        decision_view(d) == (10u8, Some(1u64))
                    },
                },
                Ok(false) => match publication {
                    Some(_) => decision_view(d) == (8u8, None::<u64>),
                    None => decision_view(d) == (10u8, Some(0u64)),
                },
            }
        }),
{
    if let Some(q) = request {
        if q.fingerprint != request_fingerprint {
            return SliceReportDecision::RequestIdReused;
        }
        return SliceReportDecision::Replayed(q.publication_sequence);
    }
    if let Some(p) = publication {
        if let Some((f, s)) = p.recorded {
            if f != p.fingerprint {
                return SliceReportDecision::PublicationIdReused;
            }
            return SliceReportDecision::PublicationReplayed(s);
        }
    }
    if retired {
        return SliceReportDecision::GraphRetired;
    }
    let current = match head {
        Some(h) => report_generation == generation && h == report_sequence,
        None => false,
    };
    if !current {
        return SliceReportDecision::Aborted { current_generation: generation };
    }
    let publishes = match publishable {
        Err(e) => {
            return SliceReportDecision::Refused(e);
        },
        Ok(b) => b,
    };
    match (publishes, publication) {
        (true, None) => {
            return SliceReportDecision::PublicationIdRequired;
        },
        (false, Some(_)) => {
            return SliceReportDecision::PublicationIdNonPublishing;
        },
        _ => {},
    }
    if let Some(p) = publication {
        if let Some(latest) = latest_publication {
            if latest == p.fingerprint {
                return SliceReportDecision::PublicationChangedForUnchangedLevel;
            }
        }
    }
    SliceReportDecision::Record { publishable: publishes }
}

} // verus!
