use henosis::textset::TextSet;
use henosis::validation::{
    validate_graph, validate_report, ComponentDisposition, Diagnostic, DiagnosticSeverity, GraphSlice,
    GraphValidationError, RegisteredComponent, ReportValidationError, SliceOutput, SliceReport,
};

fn graph_id() -> u128 {
    u128::from_be_bytes([1; 16])
}

fn slice(components: Vec<u128>) -> GraphSlice {
    GraphSlice { graph_id: graph_id(), generation: 1, connector: "test".to_string(), components, sequence: 0 }
}

fn report(dispositions: Vec<ComponentDisposition>, outputs: Vec<SliceOutput>) -> SliceReport {
    SliceReport {
        graph_id: graph_id(),
        generation: 1,
        connector: "test".to_string(),
        sequence: 0,
        dispositions,
        outputs,
        diagnostics: Vec::new(),
    }
}

fn ready(component: u128) -> ComponentDisposition {
    ComponentDisposition { component, ready: true }
}

fn output(component: u128) -> SliceOutput {
    SliceOutput { component, name: "url".to_string(), value: "\"https://example.test\"".to_string() }
}

fn codes(error: &GraphValidationError) -> Vec<(String, Option<u128>)> {
    let diagnostics = match error {
        GraphValidationError::Invalid(d) | GraphValidationError::FailedPrecondition(d) => d,
    };
    diagnostics.iter().map(|d| (d.code.clone(), d.component)).collect()
}

fn registered(id: u128, connector: &str, depends_on: Vec<u128>) -> RegisteredComponent {
    RegisteredComponent { id, connector: connector.to_string(), depends_on }
}

fn connectors() -> TextSet {
    let mut set = TextSet::new();
    set.insert("k8s".to_string());
    set
}

#[test]
fn empty_ready_slice_is_non_publishing() {
    let slice = slice(Vec::new());
    let report = report(Vec::new(), Vec::new());
    assert_eq!(validate_report(&report, &slice), Ok(false));
}

#[test]
fn ready_slice_publishes_complete_outputs() {
    let slice = slice(vec![1, 2]);
    assert_eq!(validate_report(&report(vec![ready(2), ready(1)], vec![output(1), output(2)]), &slice), Ok(true));
    let incomplete = validate_report(&report(vec![ready(1), ready(2)], vec![output(1)]), &slice).unwrap_err();
    let ReportValidationError::FailedPrecondition(d) = incomplete else { panic!("precondition") };
    assert_eq!(d[0].code, "report.outputs.incomplete");
}

#[test]
fn reports_must_answer_for_exactly_their_slice() {
    let slice = slice(vec![1, 2]);
    let error = validate_report(&report(vec![ready(1)], Vec::new()), &slice).unwrap_err();
    let ReportValidationError::Invalid(d) = error else { panic!("invalid") };
    assert_eq!(d[0].code, "report.dispositions.incomplete");

    let mut other = report(vec![ready(1), ready(2)], Vec::new());
    other.sequence = 9;
    let ReportValidationError::Invalid(d) = validate_report(&other, &slice).unwrap_err() else { panic!("invalid") };
    assert_eq!(d[0].code, "report.slice_identity_mismatch");
}

#[test]
fn unready_slices_carry_no_outputs() {
    let slice = slice(vec![1]);
    let blocked = ComponentDisposition { component: 1, ready: false };
    assert_eq!(validate_report(&report(vec![blocked.clone()], Vec::new()), &slice), Ok(false));
    let ReportValidationError::FailedPrecondition(d) =
        validate_report(&report(vec![blocked], vec![output(1)]), &slice).unwrap_err()
    else {
        panic!("precondition")
    };
    assert_eq!(d[0].code, "report.outputs.require_ready_slice");

    let mut with_error = report(vec![ready(1)], Vec::new());
    with_error.diagnostics.push(Diagnostic {
        severity: DiagnosticSeverity::Error,
        code: "component.failed".to_string(),
        component: Some(1),
    });
    assert_eq!(validate_report(&with_error, &slice), Ok(false));
}

#[test]
fn a_sound_graph_is_admitted() {
    let catalog = vec![registered(1, "k8s", vec![]), registered(2, "k8s", vec![1])];
    assert_eq!(validate_graph(&[1, 2], &catalog, &connectors()), Ok(()));
}

#[test]
fn self_dependencies_are_invalid_before_anything_else() {
    let catalog = vec![registered(1, "unknown", vec![1, 9])];
    let error = validate_graph(&[1], &catalog, &connectors()).unwrap_err();
    assert!(matches!(error, GraphValidationError::Invalid(_)));
    assert_eq!(codes(&error), vec![("component.depends_on.self".to_string(), Some(1))]);
}

#[test]
fn unmet_preconditions_are_listed_in_order() {
    let catalog = vec![registered(1, "unknown", vec![9]), registered(2, "k8s", vec![3]), registered(3, "k8s", vec![2])];
    let error = validate_graph(&[1, 2, 3, 4], &catalog, &connectors()).unwrap_err();
    assert!(matches!(error, GraphValidationError::FailedPrecondition(_)));
    assert_eq!(
        codes(&error),
        vec![
            ("component.connector.unregistered".to_string(), Some(1)),
            ("component.depends_on.missing".to_string(), Some(1)),
            ("component.spec.unregistered".to_string(), Some(4)),
            ("graph.dependencies.cycle".to_string(), None),
        ]
    );
}
