use henosis::slicereport::{screen_slice_report, PublicationCandidate, RequestReceipt, SliceReportDecision};
use henosis::validation::ReportValidationError;

fn screen(
    request: Option<RequestReceipt>,
    publication: Option<PublicationCandidate>,
    retired: bool,
    report: (u64, u64),
    publishable: Result<bool, ReportValidationError>,
    latest: Option<u128>,
) -> SliceReportDecision {
    screen_slice_report(request, 11, publication, retired, 3, Some(9), report.0, report.1, publishable, latest)
}

#[test]
fn recorded_requests_and_publications_replay() {
    let same = RequestReceipt { fingerprint: 11, publication_sequence: Some(4) };
    assert!(matches!(screen(Some(same), None, true, (1, 1), Ok(true), None), SliceReportDecision::Replayed(Some(4))));
    let other = RequestReceipt { fingerprint: 12, publication_sequence: None };
    assert!(matches!(screen(Some(other), None, false, (3, 9), Ok(false), None), SliceReportDecision::RequestIdReused));
    let recorded = PublicationCandidate { fingerprint: 5, recorded: Some((5, 8)) };
    assert!(matches!(screen(None, Some(recorded), true, (1, 1), Ok(true), None), SliceReportDecision::PublicationReplayed(8)));
    let reused = PublicationCandidate { fingerprint: 5, recorded: Some((6, 8)) };
    assert!(matches!(screen(None, Some(reused), false, (3, 9), Ok(true), None), SliceReportDecision::PublicationIdReused));
}

#[test]
fn stale_or_retired_reports_are_refused() {
    assert!(matches!(screen(None, None, true, (3, 9), Ok(false), None), SliceReportDecision::GraphRetired));
    assert!(matches!(
        screen(None, None, false, (2, 9), Ok(false), None),
        SliceReportDecision::Aborted { current_generation: 3 }
    ));
    assert!(matches!(
        screen(None, None, false, (3, 8), Ok(false), None),
        SliceReportDecision::Aborted { current_generation: 3 }
    ));
    assert!(matches!(
        screen(None, None, false, (3, 9), Err(ReportValidationError::Invalid(vec![])), None),
        SliceReportDecision::Refused(ReportValidationError::Invalid(_))
    ));
}

#[test]
fn publication_ids_follow_whether_the_report_publishes() {
    let fresh = PublicationCandidate { fingerprint: 5, recorded: None };
    assert!(matches!(screen(None, None, false, (3, 9), Ok(true), None), SliceReportDecision::PublicationIdRequired));
    assert!(matches!(screen(None, Some(fresh), false, (3, 9), Ok(false), None), SliceReportDecision::PublicationIdNonPublishing));
    assert!(matches!(
        screen(None, Some(fresh), false, (3, 9), Ok(true), Some(5)),
        SliceReportDecision::PublicationChangedForUnchangedLevel
    ));
    assert!(matches!(screen(None, Some(fresh), false, (3, 9), Ok(true), Some(4)), SliceReportDecision::Record { publishable: true }));
    assert!(matches!(screen(None, None, false, (3, 9), Ok(false), None), SliceReportDecision::Record { publishable: false }));
}
