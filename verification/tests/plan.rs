use henosis::controller::{ControllerReport, ResourceDisposition, ResourceDispositionKind};
use henosis::evaluation::OutputRef;
use henosis::plan::{
    blocked_cycle, dispatch_effects, group_by_controller, retire_graph, screen_report, stall_cycle, BlockedMarker,
    ControllerEffect, EffectCommand, ObservedBinding, Plan, ReportRefusal, ReportScreen, RetireOutcome,
};
use henosis::resource::{ContentDigest, ObservedOutput, OutputDeclaration, Resource};

fn resource(id: u128, controller: &str) -> Resource {
    Resource {
        id,
        controller: controller.into(),
        kind_name: "test/kind".into(),
        kind_version: 1,
        digest: ContentDigest { high: id, low: 0 },
        path: format!("app/r{id}"),
        outputs: vec![
            OutputDeclaration { name: "url".into(), observed: true },
            OutputDeclaration { name: "fixed".into(), observed: false },
        ],
    }
}

fn plan(generation: u64, resources: Vec<Resource>) -> Plan {
    Plan { generation, digest: ContentDigest { high: 9, low: generation as u128 }, resources, blocked: Vec::new() }
}

fn ids(resources: &[Resource]) -> Vec<u128> {
    resources.iter().map(|r| r.id).collect()
}

fn describe(effect: &ControllerEffect) -> (String, &'static str, Vec<u128>, Vec<u128>) {
    match &effect.command {
        EffectCommand::Reconcile { resources, superseded, .. } => {
            (effect.controller.clone(), "reconcile", ids(resources), ids(superseded))
        },
        EffectCommand::Supersede { resources } => (effect.controller.clone(), "supersede", ids(resources), Vec::new()),
        EffectCommand::Retire { resources } => (effect.controller.clone(), "retire", ids(resources), Vec::new()),
    }
}

#[test]
fn resources_group_by_controller_in_name_order() {
    let groups = group_by_controller(&vec![resource(1, "b"), resource(2, "a"), resource(3, "b")]);
    let shape: Vec<(String, Vec<u128>)> = groups.iter().map(|(c, rs)| (c.clone(), ids(rs))).collect();
    assert_eq!(shape, vec![("a".to_string(), vec![2]), ("b".to_string(), vec![1, 3])]);
}

#[test]
fn first_plan_reconciles_every_controller() {
    let current = plan(1, vec![resource(1, "k8s"), resource(2, "cloudflare")]);
    let effects = dispatch_effects(7, None, &current);
    let shape: Vec<_> = effects.iter().map(describe).collect();
    assert_eq!(
        shape,
        vec![
            ("cloudflare".to_string(), "reconcile", vec![2], vec![]),
            ("k8s".to_string(), "reconcile", vec![1], vec![]),
        ]
    );
    assert!(effects.iter().all(|e| e.graph_id == 7 && e.generation == 1));
}

#[test]
fn replaced_plan_supersedes_removed_resources_with_their_controllers() {
    let previous = plan(1, vec![resource(1, "a"), resource(2, "b"), resource(3, "c")]);
    let current = plan(2, vec![resource(1, "a"), resource(4, "b")]);
    let effects = dispatch_effects(7, Some(&previous), &current);
    let shape: Vec<_> = effects.iter().map(describe).collect();
    assert_eq!(
        shape,
        vec![
            ("a".to_string(), "reconcile", vec![1], vec![]),
            ("b".to_string(), "reconcile", vec![4], vec![2]),
            ("c".to_string(), "supersede", vec![3], vec![]),
        ]
    );
    match &effects[0].command {
        EffectCommand::Reconcile { plan_digest, .. } => assert_eq!(*plan_digest, current.digest),
        _ => panic!("expected a reconcile effect"),
    }
}

#[test]
fn retiring_checks_generation_and_is_idempotent() {
    let current = plan(3, vec![resource(1, "b"), resource(2, "a"), resource(3, "b")]);
    match retire_graph(7, 3, false, 2, Some(&current)) {
        RetireOutcome::GenerationConflict { expected, actual } => assert_eq!((expected, actual), (2, 3)),
        other => panic!("unexpected {other:?}"),
    }
    assert!(matches!(retire_graph(7, 3, true, 3, Some(&current)), RetireOutcome::AlreadyRetired));
    match retire_graph(7, 3, false, 3, Some(&current)) {
        RetireOutcome::Retired(effects) => {
            let shape: Vec<_> = effects.iter().map(describe).collect();
            assert_eq!(
                shape,
                vec![("a".to_string(), "retire", vec![2], vec![]), ("b".to_string(), "retire", vec![1, 3], vec![])]
            );
        },
        other => panic!("unexpected {other:?}"),
    }
    match retire_graph(7, 3, false, 3, None) {
        RetireOutcome::Retired(effects) => assert!(effects.is_empty()),
        other => panic!("unexpected {other:?}"),
    }
}

fn report(current: &Plan, controller: &str, answered: &[u128], outputs: Vec<ObservedOutput>) -> ControllerReport {
    ControllerReport {
        graph_id: 7,
        generation: current.generation,
        plan_digest: current.digest,
        controller: controller.into(),
        publication_id: Some(55),
        dispositions: answered
            .iter()
            .map(|id| ResourceDisposition { resource: *id, kind: ResourceDispositionKind::Ready })
            .collect(),
        outputs,
    }
}

fn observed(resource: u128, name: &str, value: &str) -> ObservedOutput {
    ObservedOutput { resource, name: name.into(), value: value.into() }
}

fn binding() -> Vec<ObservedBinding> {
    vec![ObservedBinding {
        resource: 1,
        output: "url".into(),
        target: OutputRef { component: "api".into(), output: "endpoint".into() },
    }]
}

#[test]
fn reports_for_older_plans_are_stale() {
    let current = plan(2, vec![resource(1, "a")]);
    let mut old = report(&current, "a", &[1], Vec::new());
    old.generation = 1;
    assert!(matches!(screen_report(&old, 2, &current, &Vec::new(), &binding()), Ok(ReportScreen::Stale)));
    let mut other = report(&current, "a", &[1], Vec::new());
    other.plan_digest = ContentDigest { high: 0, low: 0 };
    assert!(matches!(screen_report(&other, 2, &current, &Vec::new(), &binding()), Ok(ReportScreen::Stale)));
}

#[test]
fn reports_must_answer_for_exactly_their_resources() {
    let current = plan(2, vec![resource(1, "a"), resource(2, "a"), resource(3, "b")]);
    let missing = report(&current, "a", &[1], Vec::new());
    assert!(matches!(screen_report(&missing, 2, &current, &Vec::new(), &binding()), Err(ReportRefusal::Incomplete)));
    let extra = report(&current, "a", &[1, 2, 3], Vec::new());
    assert!(matches!(screen_report(&extra, 2, &current, &Vec::new(), &binding()), Err(ReportRefusal::Incomplete)));
    let exact = report(&current, "a", &[2, 1, 1], Vec::new());
    assert!(matches!(screen_report(&exact, 2, &current, &Vec::new(), &binding()), Ok(ReportScreen::Accepted(_))));
}

#[test]
fn taken_publications_are_duplicates() {
    let current = plan(2, vec![resource(1, "a")]);
    let again = report(&current, "a", &[1], Vec::new());
    assert!(matches!(screen_report(&again, 2, &current, &vec![55], &binding()), Ok(ReportScreen::Duplicate)));
}

#[test]
fn reports_may_publish_only_observed_outputs_of_their_own_resources() {
    let current = plan(2, vec![resource(1, "a"), resource(2, "b")]);
    for bad in [observed(9, "url", "x"), observed(2, "url", "x"), observed(1, "fixed", "x"), observed(1, "nope", "x")] {
        let r = report(&current, "a", &[1], vec![bad]);
        assert!(matches!(
            screen_report(&r, 2, &current, &Vec::new(), &binding()),
            Err(ReportRefusal::InvalidObservedOutput)
        ));
    }
}

#[test]
fn accepted_reports_publish_their_bound_outputs() {
    let mut declared = resource(1, "a");
    declared.outputs.push(OutputDeclaration { name: "extra".into(), observed: true });
    let current = plan(2, vec![declared]);
    let r = report(&current, "a", &[1], vec![observed(1, "url", "https://x"), observed(1, "extra", "y")]);
    match screen_report(&r, 2, &current, &vec![54], &binding()) {
        Ok(ReportScreen::Accepted(published)) => {
            assert_eq!(published.len(), 1);
            let p = &published[0];
            assert_eq!((p.generation, p.value.as_str(), p.resource, p.resource_output.as_str()), (2, "https://x", 1, "url"));
            assert_eq!((p.output.component.as_str(), p.output.output.as_str()), ("api", "endpoint"));
        },
        other => panic!("unexpected {other:?}"),
    }
}

fn marker(component: &str, on: &[&str]) -> BlockedMarker {
    BlockedMarker {
        component: component.into(),
        blocked_on: on.iter().map(|c| OutputRef { component: c.to_string(), output: "value".into() }).collect(),
    }
}

#[test]
fn blocked_components_waiting_on_each_other_form_a_cycle() {
    let cycle = blocked_cycle(&vec![marker("b", &["a"]), marker("a", &["b"])]).expect("cycle");
    assert_eq!(cycle, vec!["a".to_string(), "b".to_string(), "a".to_string()]);
    let own = blocked_cycle(&vec![marker("a", &["a"])]).expect("cycle");
    assert_eq!(own, vec!["a".to_string(), "a".to_string()]);
}

#[test]
fn waiting_on_unblocked_components_is_no_cycle() {
    assert!(blocked_cycle(&vec![marker("a", &["b"]), marker("c", &["a"])]).is_none());
    assert!(blocked_cycle(&Vec::new()).is_none());
}

#[test]
fn stalls_are_only_detected_once_work_is_done() {
    let mut current = plan(2, Vec::new());
    current.blocked = vec![marker("a", &["b"]), marker("b", &["a"])];
    assert!(!current.is_complete());
    assert!(stall_cycle(false, Some(&current)).is_none());
    assert!(stall_cycle(true, None).is_none());
    assert_eq!(stall_cycle(true, Some(&current)).map(|c| c.len()), Some(3));
    let done = plan(2, Vec::new());
    assert!(done.is_complete());
    assert!(stall_cycle(true, Some(&done)).is_none());
}
