use henosis::controller::{
    failed_report, ready_report, ControllerCommand, ControllerPass, ControllerSlice, Retirement, Supersession,
};
use henosis::resource::{ContentDigest, Resource};
use henosis::schedule::{
    merge_current_command, ControllerDesiredState, ControllerSchedule, ControllerScheduleCompletion,
};
use henosis::workmap::ControllerWorkKey;

fn digest(bytes: &[u8]) -> ContentDigest {
    let hash = blake3::hash(bytes);
    let b = hash.as_bytes();
    let mut high = [0u8; 16];
    let mut low = [0u8; 16];
    high.copy_from_slice(&b[..16]);
    low.copy_from_slice(&b[16..]);
    ContentDigest { high: u128::from_be_bytes(high), low: u128::from_be_bytes(low) }
}

fn graph_id(byte: u8) -> u128 {
    u128::from_be_bytes([byte; 16])
}

fn slice(graph: u128, generation: u64, plan: &[u8]) -> ControllerSlice {
    ControllerSlice {
        graph_id: graph,
        generation,
        plan_digest: digest(plan),
        controller: "test".to_string(),
        bundles: Vec::new(),
        resources: Vec::new(),
        superseded: Vec::new(),
    }
}

fn command(graph: u128, generation: u64) -> ControllerCommand {
    ControllerCommand::Reconcile(slice(graph, generation, &[generation as u8]))
}

fn submit(
    schedule: &mut ControllerSchedule,
    desired: &mut ControllerDesiredState,
    controller: &str,
    command: ControllerCommand,
) -> Option<ControllerWorkKey> {
    let key = desired.update(controller.to_string(), command);
    schedule.submit(key)
}

fn generation_of(command: &ControllerCommand) -> Option<u64> {
    match command {
        ControllerCommand::Reconcile(slice) => Some(slice.generation),
        _ => None,
    }
}

fn resource(id: u128, path: &str) -> Resource {
    Resource {
        id,
        controller: "test".to_string(),
        kind_name: "test/item".to_string(),
        kind_version: 1,
        digest: ContentDigest { high: id, low: 0 },
        path: path.to_string(),
        outputs: Vec::new(),
    }
}

#[test]
fn scheduler_supersedes_in_flight_generation_and_keeps_the_lane_running() {
    let graph = graph_id(3);
    let mut desired = ControllerDesiredState::default();
    let mut schedule = ControllerSchedule::default();
    let key = submit(&mut schedule, &mut desired, "test", command(graph, 1)).expect("new lane starts a driver");
    let stale = schedule.pass(&key, &desired).unwrap();
    assert_eq!(submit(&mut schedule, &mut desired, "test", command(graph, 2)), None);
    assert_eq!(schedule.complete(&stale, ControllerPass::Converged(None)), ControllerScheduleCompletion::Continue);
    let current = schedule.pass(&key, &desired).unwrap();
    assert_eq!(generation_of(current.command()), Some(2));
    assert_eq!(schedule.complete(&current, ControllerPass::Acted), ControllerScheduleCompletion::Continue);
    let final_pass = schedule.pass(&key, &desired).unwrap();
    assert_eq!(schedule.complete(&final_pass, ControllerPass::Converged(None)), ControllerScheduleCompletion::Complete);
    assert!(schedule.pass(&key, &desired).is_none());
}

#[test]
fn dirty_lane_coalesces_updates_to_the_latest_command() {
    let graph = graph_id(9);
    let mut desired = ControllerDesiredState::default();
    let mut schedule = ControllerSchedule::default();
    let key = submit(&mut schedule, &mut desired, "test", command(graph, 1)).unwrap();
    let first = schedule.pass(&key, &desired).unwrap();
    assert_eq!(submit(&mut schedule, &mut desired, "test", command(graph, 2)), None);
    assert_eq!(submit(&mut schedule, &mut desired, "test", command(graph, 3)), None);
    assert_eq!(schedule.complete(&first, ControllerPass::Converged(None)), ControllerScheduleCompletion::Continue);
    assert_eq!(generation_of(schedule.pass(&key, &desired).unwrap().command()), Some(3));
}

#[test]
fn scheduler_retains_report_until_acknowledged() {
    let graph = graph_id(4);
    let first = slice(graph, 1, b"plan");
    let report = ready_report(&first, None, Vec::new());
    let mut desired = ControllerDesiredState::default();
    let mut schedule = ControllerSchedule::default();
    let key = submit(&mut schedule, &mut desired, "test", ControllerCommand::Reconcile(first.clone())).unwrap();
    let pass = schedule.pass(&key, &desired).unwrap();
    let ControllerScheduleCompletion::Report(pending) =
        schedule.complete(&pass, ControllerPass::Converged(Some(report.clone())))
    else {
        panic!("convergence should enter report delivery");
    };
    assert!(schedule.pass(&key, &desired).is_none());

    let newer = slice(graph, 2, b"new-plan");
    assert_eq!(
        submit(&mut schedule, &mut desired, "test", ControllerCommand::Reconcile(newer)),
        Some(key.clone())
    );
    assert_eq!(schedule.acknowledge_report(&pending), ControllerScheduleCompletion::Continue);
    assert_eq!(generation_of(schedule.pass(&key, &desired).unwrap().command()), Some(2));
}

#[test]
fn retryable_and_terminal_failures_have_distinct_schedule_outcomes() {
    let graph = graph_id(5);
    let first = slice(graph, 1, b"plan");
    let mut desired = ControllerDesiredState::default();
    let mut schedule = ControllerSchedule::default();
    let key = submit(&mut schedule, &mut desired, "test", ControllerCommand::Reconcile(first.clone())).unwrap();
    let pass = schedule.pass(&key, &desired).unwrap();
    assert_eq!(
        schedule.complete(&pass, ControllerPass::Retryable("offline".into())),
        ControllerScheduleCompletion::Retry { attempt: 1, message: "offline".into() }
    );
    let pass = schedule.pass(&key, &desired).unwrap();
    let failed = failed_report(&first, "invalid desired state".to_string());
    assert!(matches!(schedule.complete(&pass, ControllerPass::Failed(failed)), ControllerScheduleCompletion::Report(_)));
}

#[test]
fn one_pass_per_lane_at_a_time() {
    let graph = graph_id(6);
    let mut desired = ControllerDesiredState::default();
    let mut schedule = ControllerSchedule::default();
    let key = submit(&mut schedule, &mut desired, "test", command(graph, 1)).unwrap();
    let _running = schedule.pass(&key, &desired).unwrap();
    assert!(schedule.pass(&key, &desired).is_none());
    assert!(schedule.passes(&desired).is_empty());
}

#[test]
fn retries_count_up_and_a_submit_resets_them() {
    let graph = graph_id(7);
    let mut desired = ControllerDesiredState::default();
    let mut schedule = ControllerSchedule::default();
    let key = submit(&mut schedule, &mut desired, "test", command(graph, 1)).unwrap();
    for attempt in 1..=3u32 {
        let pass = schedule.pass(&key, &desired).unwrap();
        assert_eq!(
            schedule.complete(&pass, ControllerPass::Retryable("offline".into())),
            ControllerScheduleCompletion::Retry { attempt, message: "offline".into() }
        );
    }
    assert_eq!(submit(&mut schedule, &mut desired, "test", command(graph, 2)), Some(key.clone()));
    let pass = schedule.pass(&key, &desired).unwrap();
    assert_eq!(
        schedule.complete(&pass, ControllerPass::Retryable("offline".into())),
        ControllerScheduleCompletion::Retry { attempt: 1, message: "offline".into() }
    );
}

#[test]
fn delivering_a_stale_report_keeps_the_held_one() {
    let graph = graph_id(8);
    let first = slice(graph, 1, b"plan");
    let second = slice(graph, 2, b"new-plan");
    let mut desired = ControllerDesiredState::default();
    let mut schedule = ControllerSchedule::default();
    let key = submit(&mut schedule, &mut desired, "test", ControllerCommand::Reconcile(first.clone())).unwrap();
    let pass = schedule.pass(&key, &desired).unwrap();
    let ControllerScheduleCompletion::Report(stale) =
        schedule.complete(&pass, ControllerPass::Converged(Some(ready_report(&first, Some(1), Vec::new()))))
    else {
        panic!("convergence should enter report delivery");
    };
    assert_eq!(
        submit(&mut schedule, &mut desired, "test", ControllerCommand::Reconcile(second.clone())),
        Some(key.clone())
    );
    let pass = schedule.pass(&key, &desired).unwrap();
    let ControllerScheduleCompletion::Report(held) =
        schedule.complete(&pass, ControllerPass::Converged(Some(ready_report(&second, Some(2), Vec::new()))))
    else {
        panic!("convergence should enter report delivery");
    };
    assert_eq!(schedule.acknowledge_report(&stale), ControllerScheduleCompletion::Complete);
    assert!(schedule.pass(&key, &desired).is_none());
    assert_eq!(schedule.acknowledge_report(&held), ControllerScheduleCompletion::Complete);
    // The lane is gone once its report is delivered: a new submit starts it afresh.
    assert_eq!(submit(&mut schedule, &mut desired, "test", command(graph, 3)), Some(key));
}

#[test]
fn passes_lists_runnable_lanes_in_key_order() {
    let mut desired = ControllerDesiredState::default();
    let mut schedule = ControllerSchedule::default();
    submit(&mut schedule, &mut desired, "zeta", command(graph_id(2), 1)).unwrap();
    submit(&mut schedule, &mut desired, "alpha", command(graph_id(2), 1)).unwrap();
    submit(&mut schedule, &mut desired, "mid", command(graph_id(1), 1)).unwrap();
    let passes = schedule.passes(&desired);
    let keys: Vec<(u128, String)> =
        passes.iter().map(|p| (p.key().graph_id(), p.key().controller().clone())).collect();
    assert_eq!(
        keys,
        vec![
            (graph_id(1), "mid".to_string()),
            (graph_id(2), "alpha".to_string()),
            (graph_id(2), "zeta".to_string()),
        ]
    );
}

#[test]
fn cleanup_obligations_accumulate_until_desired_again() {
    let graph = graph_id(1);
    let previous = ControllerCommand::Supersede(Supersession {
        graph_id: graph,
        generation: 1,
        controller: "test".into(),
        resources: vec![resource(5, "old/five"), resource(2, "old/two")],
    });
    let mut current_slice = slice(graph, 2, b"plan");
    current_slice.resources = vec![resource(2, "new/two")];
    current_slice.superseded = vec![resource(7, "old/seven"), resource(5, "newer/five")];
    let merged = merge_current_command(Some(&previous), ControllerCommand::Reconcile(current_slice));
    let ControllerCommand::Reconcile(merged) = merged else { panic!("a reconcile stays a reconcile") };
    let cleanup: Vec<(u128, String)> = merged.superseded.iter().map(|r| (r.id, r.path.clone())).collect();
    assert_eq!(cleanup, vec![(5, "newer/five".to_string()), (7, "old/seven".to_string())]);
    assert_eq!(merged.resources.len(), 1);
    assert_eq!(merged.generation, 2);
}

#[test]
fn retirement_keeps_everything_still_owed() {
    let graph = graph_id(1);
    let previous = ControllerCommand::Retire(Retirement {
        graph_id: graph,
        last_generation: 2,
        controller: "test".into(),
        resources: vec![resource(3, "a")],
    });
    let current = ControllerCommand::Retire(Retirement {
        graph_id: graph,
        last_generation: 2,
        controller: "test".into(),
        resources: vec![resource(1, "b")],
    });
    let ControllerCommand::Retire(merged) = merge_current_command(Some(&previous), current) else {
        panic!("a retirement stays a retirement")
    };
    let ids: Vec<u128> = merged.resources.iter().map(|r| r.id).collect();
    assert_eq!(ids, vec![1, 3]);
    assert_eq!((merged.last_generation, merged.controller.as_str()), (2, "test"));
}

#[test]
fn desired_state_update_folds_previous_cleanup() {
    let graph = graph_id(1);
    let mut desired = ControllerDesiredState::new();
    desired.update(
        "test".to_string(),
        ControllerCommand::Supersede(Supersession {
            graph_id: graph,
            generation: 2,
            controller: "test".into(),
            resources: vec![resource(4, "gone")],
        }),
    );
    let key = desired.update("test".to_string(), command(graph, 3));
    let Some(ControllerCommand::Reconcile(current)) = desired.current(&key) else { panic!("current command") };
    assert_eq!(current.superseded.len(), 1);
    assert_eq!(current.superseded[0].id, 4);
    assert_eq!(current.generation, 3);
}
