use henosis::evaluation::{InputState, JsonValue, OutputRef};
use henosis::graphcore::{
    admit_create, admit_update, config_value, output_input_state, plan_parts, plan_unchanged, CommandRefusal,
    EvaluationRounds, InterpretedComponent,
};
use henosis::resource::{ContentDigest, Resource};

fn resource(id: u128) -> Resource {
    Resource {
        id,
        controller: "test".into(),
        kind_name: "test/item".into(),
        kind_version: 1,
        digest: ContentDigest { high: 0, low: id },
        path: format!("app/r{id}"),
        outputs: vec![],
    }
}

#[test]
fn commands_are_admitted_only_on_the_expected_graph_state() {
    assert_eq!(admit_create(true), Err(CommandRefusal::GraphAlreadyExists));
    assert_eq!(admit_create(false), Ok(()));
    assert_eq!(admit_update(None, 1), Err(CommandRefusal::GraphNotFound));
    assert_eq!(admit_update(Some((true, 1)), 1), Err(CommandRefusal::GraphRetired));
    assert_eq!(admit_update(Some((false, 2)), 1), Err(CommandRefusal::GenerationConflict { expected: 1, actual: 2 }));
    assert_eq!(admit_update(Some((false, 2)), 2), Ok(()));
}

#[test]
fn snapshot_cells_hold_values_absence_or_blocking() {
    let v = JsonValue::String("x".into());
    assert!(matches!(config_value(None, Some(&v)), JsonValue::String(s) if s == "x"));
    assert!(matches!(output_input_state(Some(&v), None, false, false), InputState::Available(JsonValue::String(_))));
    assert!(matches!(output_input_state(None, Some((true, false)), true, true), InputState::Absent));
    assert!(matches!(output_input_state(None, Some((true, true)), true, true), InputState::Blocked));
    assert!(matches!(output_input_state(None, Some((false, false)), true, true), InputState::Blocked));
    assert!(matches!(output_input_state(None, Some((true, false)), false, true), InputState::Blocked));
    assert!(matches!(output_input_state(None, None, true, true), InputState::Blocked));
}

#[test]
fn rounds_stop_at_a_fixed_point_or_after_one_more_than_the_components() {
    let mut rounds = EvaluationRounds::start(2);
    assert!(rounds.finish_round(true));
    assert!(!rounds.finish_round(false));
    let mut bounded = EvaluationRounds::start(1);
    assert!(bounded.finish_round(true));
    assert!(!bounded.finish_round(true));
}

#[test]
fn plans_gather_resources_and_blocked_components_in_order() {
    let interpretations = vec![
        InterpretedComponent { component: "api".into(), resources: vec![resource(1), resource(2)], blocked_on: None },
        InterpretedComponent {
            component: "web".into(),
            resources: vec![resource(3)],
            blocked_on: Some(OutputRef { component: "api".into(), output: "url".into() }),
        },
    ];
    let (resources, blocked) = plan_parts(&interpretations);
    assert_eq!(resources.iter().map(|r| r.id).collect::<Vec<_>>(), vec![1, 2, 3]);
    assert_eq!(blocked.len(), 1);
    assert_eq!(blocked[0].component, "web");
    assert_eq!(blocked[0].blocked_on, vec![OutputRef { component: "api".into(), output: "url".into() }]);
    let d = ContentDigest { high: 1, low: 2 };
    assert!(plan_unchanged(Some((3, d)), 3, d));
    assert!(!plan_unchanged(Some((2, d)), 3, d));
    assert!(!plan_unchanged(None, 3, d));
}
