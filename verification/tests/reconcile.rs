use henosis::reconcile::{visit_order, ResourcePass, SliceRun, SlicePass, SliceStep};
use henosis::resource::{ObservedOutput, ResourceConvergence, ResourceGoal};

fn converged(resource: u128, value: &str, evidence: &[u8]) -> Result<ResourcePass, String> {
    Ok(ResourcePass::Converged(ResourceConvergence {
        outputs: vec![ObservedOutput { resource, name: "url".into(), value: value.into() }],
        evidence: evidence.to_vec(),
    }))
}

#[test]
fn resources_are_visited_by_rank_then_id() {
    assert_eq!(visit_order(&vec![(1, 5), (0, 9), (1, 2), (0, 9)]), vec![1, 3, 2, 0]);
    assert!(visit_order(&vec![]).is_empty());
}

#[test]
fn the_first_action_ends_the_pass() {
    let (mut run, step) = SliceRun::start(&vec![(0, 2), (0, 1)], &vec![(0, 7)]);
    assert!(matches!(step, SliceStep::Visit { index: 1, goal: ResourceGoal::Present }));
    let step = run.record("1", converged(1, "https://a", b"a")).unwrap();
    assert!(matches!(step, SliceStep::Visit { index: 0, goal: ResourceGoal::Present }));
    let step = run.record("2", Ok::<ResourcePass, String>(ResourcePass::Acted)).unwrap();
    assert!(matches!(step, SliceStep::Done(SlicePass::Acted)));
}

#[test]
fn a_converged_pass_reports_outputs_and_evidence_of_desired_resources() {
    let (mut run, step) = SliceRun::start(&vec![(0, 1), (0, 2)], &vec![(0, 7)]);
    assert!(matches!(step, SliceStep::Visit { index: 0, goal: ResourceGoal::Present }));
    run.record("1", converged(1, "https://a", b"x")).unwrap();
    let step = run.record("2", converged(2, "https://b", b"y")).unwrap();
    assert!(matches!(step, SliceStep::Visit { index: 0, goal: ResourceGoal::Absent }));
    match run.record("7", converged(7, "ignored", b"z")).unwrap() {
        SliceStep::Done(SlicePass::Converged(c)) => {
            assert_eq!(c.outputs.len(), 2);
            assert_eq!(c.outputs[1].value, "https://b");
            assert_eq!(c.evidence, b"1=x;2=y;".to_vec());
        },
        other => panic!("expected a converged pass, got {other:?}"),
    }
    let (_, step) = SliceRun::start(&vec![], &vec![]);
    match step {
        SliceStep::Done(SlicePass::Converged(c)) => assert!(c.outputs.is_empty() && c.evidence.is_empty()),
        other => panic!("expected an empty converged pass, got {other:?}"),
    }
}

#[test]
fn the_first_failure_ends_the_pass_with_its_error() {
    let (mut run, _) = SliceRun::start(&vec![(0, 1), (0, 2)], &vec![]);
    run.record("1", converged(1, "https://a", b"x")).unwrap();
    let failed = run.record("2", Err::<ResourcePass, String>("observe failed".into()));
    assert_eq!(failed.unwrap_err(), "observe failed");
}
