use henosis::frontend::{
    acknowledge, intent_file_path, plan_calls, validate, ComponentIntent, GitSyncError, GraphIntentFile,
    GraphStatusReply, IntentAction, IntentSet, PollRun,
};

fn intent(graph: &str, generation: u64, digest: u8) -> GraphIntentFile {
    GraphIntentFile {
        schema: 1,
        graph: graph.to_string(),
        name: "production".into(),
        generation,
        components: vec![ComponentIntent { name: Some("api".into()), bundle_digest: Some(vec![digest]) }],
    }
}

fn set_of(files: Vec<GraphIntentFile>) -> IntentSet {
    let mut set = IntentSet::new();
    for file in files {
        let path = format!("{}.toml", file.graph);
        set.accept_file(&path, file).unwrap();
    }
    set
}

fn reply(graph: &str, generation: u64) -> GraphStatusReply {
    GraphStatusReply { graph_id: Some(graph.to_string()), generation: Some(generation) }
}

#[test]
fn first_poll_creates_then_edits_update_then_removal_retires() {
    let graph = "graph_09";
    // A new file with generation zero creates the graph.
    let seen = IntentSet::new();
    let mut incoming = set_of(vec![intent(graph, 0, 1)]);
    let calls = plan_calls(&seen, &incoming);
    assert_eq!(calls, vec![IntentAction::Create { graph: graph.to_string() }]);
    let mut file = incoming.get(graph).unwrap().clone();
    acknowledge(&mut file, &reply(graph, 1)).unwrap();
    assert_eq!(file.generation, 1);
    assert!(incoming.replace(file));
    assert_eq!(incoming.get(graph).unwrap().generation, 1);

    // An edit expecting generation one updates it.
    let seen = incoming;
    let incoming = set_of(vec![intent(graph, 1, 2)]);
    assert_eq!(
        plan_calls(&seen, &incoming),
        vec![IntentAction::Update { graph: graph.to_string(), expected_generation: 1 }]
    );

    // An unchanged file makes no call; a removed one retires.
    assert!(plan_calls(&incoming, &set_of(vec![intent(graph, 1, 2)])).is_empty());
    assert_eq!(
        plan_calls(&set_of(vec![intent(graph, 2, 2)]), &IntentSet::new()),
        vec![IntentAction::Retire { graph: graph.to_string(), expected_generation: 2 }]
    );
}

#[test]
fn calls_follow_graph_order_then_retirements() {
    let seen = set_of(vec![intent("graph_b", 3, 1), intent("graph_z", 4, 1)]);
    let incoming = set_of(vec![intent("graph_c", 0, 1), intent("graph_a", 2, 9), intent("graph_b", 3, 1)]);
    assert_eq!(
        plan_calls(&seen, &incoming),
        vec![
            IntentAction::Update { graph: "graph_a".into(), expected_generation: 2 },
            IntentAction::Create { graph: "graph_c".into() },
            IntentAction::Retire { graph: "graph_z".into(), expected_generation: 4 },
        ]
    );
}

#[test]
fn files_are_named_after_their_graph_and_unique() {
    let mut set = IntentSet::new();
    assert_eq!(
        set.accept_file("other.toml", intent("graph_1", 0, 1)),
        Err(GitSyncError::Decode("other.toml: graph identity requires filename graph_1.toml".into()))
    );
    assert!(set.accept_file("graph_1.toml", intent("graph_1", 0, 1)).is_ok());
    assert_eq!(
        set.accept_file("graph_1.toml", intent("graph_1", 0, 2)),
        Err(GitSyncError::Decode("duplicate graph identity in graph_1.toml".into()))
    );
    assert_eq!(intent_file_path("graph_1"), "henosis/graphs/graph_1.toml");
}

#[test]
fn intent_files_are_checked() {
    let mut file = intent("graph_1", 0, 1);
    assert_eq!(validate(&file), Ok(()));
    file.components[0].bundle_digest = Some(Vec::new());
    assert_eq!(
        validate(&file),
        Err(GitSyncError::Decode(
            "graph graph_1 components require public ComponentIntent name and bundle_digest fields".into()
        ))
    );
    file.name = String::new();
    assert_eq!(validate(&file), Err(GitSyncError::Decode("graph graph_1 requires a name".into())));
    file.schema = 2;
    assert_eq!(
        validate(&file),
        Err(GitSyncError::Decode("graph graph_1 uses unsupported intent-file schema 2; expected 1".into()))
    );
}

#[test]
fn replies_must_be_about_the_graph_and_advance_it() {
    let mut file = intent("graph_1", 0, 1);
    assert_eq!(
        acknowledge(&mut file, &reply("graph_2", 1)),
        Err(GitSyncError::Service("GraphService returned status for graph_2, expected graph_1".into()))
    );
    assert_eq!(
        acknowledge(&mut file, &GraphStatusReply { graph_id: None, generation: Some(1) }),
        Err(GitSyncError::Service("GraphService status omitted graph_id".into()))
    );
    assert_eq!(
        acknowledge(&mut file, &GraphStatusReply { graph_id: Some("graph_1".into()), generation: None }),
        Err(GitSyncError::Service("GraphService status for graph_1 omitted generation".into()))
    );
    assert_eq!(
        acknowledge(&mut file, &reply("graph_1", 0)),
        Err(GitSyncError::Service("GraphService returned generation zero for graph_1".into()))
    );
    assert_eq!(file.generation, 0);
    assert_eq!(acknowledge(&mut file, &reply("graph_1", 5)), Ok(()));
    assert_eq!(file.generation, 5);
    assert_eq!(
        GitSyncError::Service("down".into()).message(),
        "public GraphService call failed: down"
    );
}

/// Runs a poll against a service that answers each create with generation
/// one, each update with the expected generation plus one, and each
/// retirement with the generation it expected; returns the calls made and
/// what `finish` gives back.
fn run_poll(seen: IntentSet, incoming: IntentSet) -> (Vec<IntentAction>, usize, bool, IntentSet) {
    let mut run = PollRun::start(seen, incoming);
    let mut made = Vec::new();
    while let Some(call) = run.next_call() {
        let call = call.clone();
        let answer = match &call {
            IntentAction::Create { graph } => reply(graph, 1),
            IntentAction::Update { graph, expected_generation } => reply(graph, expected_generation + 1),
            IntentAction::Retire { graph, expected_generation } => reply(graph, *expected_generation),
        };
        run.take_reply(&answer).unwrap();
        made.push(call);
    }
    let (changes, publish, seen) = run.finish();
    (made, changes, publish, seen)
}

#[test]
fn poll_round_trips_creation_edit_and_retirement() {
    let graph = "graph_09";
    // First poll: the new file is created and acknowledged at generation one.
    let (calls, changes, publish, seen) = run_poll(IntentSet::new(), set_of(vec![intent(graph, 0, 1)]));
    assert_eq!(calls, vec![IntentAction::Create { graph: graph.to_string() }]);
    assert_eq!((changes, publish), (1, true));
    assert_eq!(seen.get(graph).unwrap().generation, 1);

    // An edit at generation one updates it, expecting generation one.
    let (calls, changes, publish, seen) = run_poll(seen, set_of(vec![intent(graph, 1, 2)]));
    assert_eq!(calls, vec![IntentAction::Update { graph: graph.to_string(), expected_generation: 1 }]);
    assert_eq!((changes, publish), (1, true));
    assert_eq!(seen.get(graph).unwrap().generation, 2);

    // Nothing changed: no call, no change, nothing published.
    let same = set_of(vec![intent(graph, 2, 2)]);
    let (calls, changes, publish, seen) = run_poll(seen, same);
    assert!(calls.is_empty());
    assert_eq!((changes, publish), (0, false));

    // The file is gone: the graph is retired, expecting generation two.
    let (calls, changes, publish, seen) = run_poll(seen, IntentSet::new());
    assert_eq!(calls, vec![IntentAction::Retire { graph: graph.to_string(), expected_generation: 2 }]);
    assert_eq!((changes, publish), (1, false));
    assert!(seen.get(graph).is_none());
}

#[test]
fn a_refused_reply_stops_the_poll_without_counting() {
    let graph = "graph_09";
    let mut run = PollRun::start(IntentSet::new(), set_of(vec![intent(graph, 0, 1)]));
    assert!(run.next_call().is_some());
    assert_eq!(
        run.take_reply(&reply("graph_10", 1)),
        Err(GitSyncError::Service("GraphService returned status for graph_10, expected graph_09".into()))
    );
    // The call is still the next one: nothing counted.
    assert_eq!(run.next_call(), Some(&IntentAction::Create { graph: graph.to_string() }));
}
