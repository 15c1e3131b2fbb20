use henosis::intent::{
    decide_intent, parse_content_digest, pin_source, select_bundles, selected_requirements, sort_artifacts, sort_pins,
    IntentDecision, SourceBundle,
};
use henosis::operation::{
    ArtifactBinding, ArtifactRequirement, BundlePin, GraphPhase, GraphStatus, OperationError, WorkloadArtifactKind,
};
use henosis::resource::ContentDigest;
use henosis::textset::TextSet;

const DIGEST_A: &str = "aaaaaaaaaaaaaaaaaaaaaaaaaaaaaaaaaaaaaaaaaaaaaaaaaaaaaaaaaaaaaaaa";
const DIGEST_B: &str = "00112233445566778899AABBCCDDEEFF00112233445566778899aabbccddeeff";

fn requirement(component: &str, input: &str) -> ArtifactRequirement {
    ArtifactRequirement {
        component: component.into(),
        input: input.into(),
        kind: WorkloadArtifactKind::CloudflareWorker,
        path: "worker.ts".into(),
        source_path: "component.ts".into(),
        line: 1,
        column: 1,
    }
}

fn bundle(component: &str, id: &str, requirements: Vec<ArtifactRequirement>, deps: &[&str]) -> SourceBundle {
    SourceBundle {
        component: component.into(),
        bundle_id: id.into(),
        artifact_requirements: requirements,
        dependencies: deps.iter().map(|d| d.to_string()).collect(),
    }
}

fn binding(component: &str, input: &str, digest: &str) -> ArtifactBinding {
    ArtifactBinding {
        component: component.into(),
        input: input.into(),
        kind: WorkloadArtifactKind::CloudflareWorker,
        digest: digest.into(),
        source: "worker.ts".into(),
        stored: "artifacts/x".into(),
    }
}

fn pin(component: &str, high: u128) -> BundlePin {
    BundlePin { component: component.into(), bundle: ContentDigest { high, low: 0 }, input_bindings: Vec::new(), source: None }
}

fn status(generation: u64, bundles: Vec<BundlePin>) -> GraphStatus {
    GraphStatus {
        graph: 5,
        generation,
        phase: GraphPhase::Ready,
        blocked_on: Vec::new(),
        observed_ready: 0,
        planned_resources: 0,
        diagnostic: None,
        bundles,
        dispositions: Vec::new(),
    }
}

#[test]
fn sources_take_every_bundle_or_the_requested_one() {
    let bundles = vec![bundle("api", DIGEST_A, Vec::new(), &[]), bundle("web", DIGEST_B, Vec::new(), &[])];
    assert_eq!(select_bundles(&bundles, &None).unwrap(), vec![0, 1]);
    assert_eq!(select_bundles(&bundles, &Some("web".into())).unwrap(), vec![1]);
    assert_eq!(select_bundles(&bundles, &Some("db".into())), Err(OperationError::MissingComponent("db".into())));
    assert_eq!(select_bundles(&Vec::new(), &None).unwrap(), Vec::<usize>::new());
}

#[test]
fn selected_requirements_keep_bundle_order() {
    let bundles = vec![
        bundle("api", DIGEST_A, vec![requirement("api", "a1"), requirement("api", "a2")], &[]),
        bundle("web", DIGEST_B, vec![requirement("web", "w1")], &[]),
    ];
    let reqs = selected_requirements(&bundles, &vec![1, 0]);
    let inputs: Vec<&str> = reqs.iter().map(|r| r.input.as_str()).collect();
    assert_eq!(inputs, vec!["w1", "a1", "a2"]);
}

#[test]
fn bundle_digests_are_thirty_two_hex_bytes() {
    let d = parse_content_digest(DIGEST_B).unwrap();
    assert_eq!(d.high, 0x00112233445566778899aabbccddeeff);
    assert_eq!(d.low, 0x00112233445566778899aabbccddeeff);
    assert_eq!(
        parse_content_digest("abcd"),
        Err(OperationError::InvalidBundleDomain("bundle digest must contain 32 bytes, got 2".into()))
    );
    assert_eq!(parse_content_digest("abc"), Err(OperationError::InvalidBundleDomain("Odd number of digits".into())));
    assert_eq!(
        parse_content_digest("az"),
        Err(OperationError::InvalidBundleDomain("Invalid character 'z' at position 1".into()))
    );
}

#[test]
fn a_source_pins_its_bundles_with_their_artifacts() {
    let bundles = vec![bundle("web", DIGEST_A, Vec::new(), &["b.ts", "a.ts"]), bundle("api", DIGEST_B, Vec::new(), &["a.ts"])];
    let bindings = vec![binding("web", "workerArtifact", "sha256:11"), binding("api", "other", "sha256:22")];
    let mut names = TextSet::new();
    let mut pins = Vec::new();
    let mut deps = TextSet::new();
    pin_source(&bundles, &vec![0, 1], &bindings, &"repo@rev".to_string(), &mut names, &mut pins, &mut deps).unwrap();
    assert_eq!(pins.len(), 2);
    assert_eq!(pins[0].component, "web");
    assert_eq!(pins[0].bundle, ContentDigest { high: u128::from_be_bytes([0xaa; 16]), low: u128::from_be_bytes([0xaa; 16]) });
    assert_eq!(pins[0].input_bindings, vec![("workerArtifact".to_string(), "sha256:11".to_string())]);
    assert_eq!(pins[0].source.as_deref(), Some("repo@rev"));
    assert_eq!(pins[1].input_bindings, vec![("other".to_string(), "sha256:22".to_string())]);
    assert_eq!(names.items().clone(), vec!["api".to_string(), "web".to_string()]);
    assert_eq!(deps.items().clone(), vec!["a.ts".to_string(), "b.ts".to_string()]);
}

#[test]
fn a_component_from_two_sources_is_refused() {
    let bundles = vec![bundle("web", DIGEST_A, Vec::new(), &[])];
    let mut names = TextSet::new();
    names.insert("web".into());
    let mut pins = Vec::new();
    let mut deps = TextSet::new();
    let r = pin_source(&bundles, &vec![0], &Vec::new(), &"repo".to_string(), &mut names, &mut pins, &mut deps);
    assert_eq!(r, Err(OperationError::DuplicateComponent("web".into())));
    let bad = vec![bundle("api", "zz", Vec::new(), &[])];
    let r = pin_source(&bad, &vec![0], &Vec::new(), &"repo".to_string(), &mut TextSet::new(), &mut pins, &mut deps);
    assert!(matches!(r, Err(OperationError::InvalidBundleDomain(_))));
}

#[test]
fn pins_and_artifacts_are_ordered_by_name() {
    let pins = sort_pins(vec![pin("web", 1), pin("api", 2), pin("db", 3)]);
    let names: Vec<&str> = pins.iter().map(|p| p.component.as_str()).collect();
    assert_eq!(names, vec!["api", "db", "web"]);
    let artifacts = sort_artifacts(vec![binding("web", "b", "1"), binding("api", "z", "2"), binding("web", "a", "3")]);
    let keys: Vec<(&str, &str)> = artifacts.iter().map(|a| (a.component.as_str(), a.input.as_str())).collect();
    assert_eq!(keys, vec![("api", "z"), ("web", "a"), ("web", "b")]);
}

#[test]
fn unchanged_pins_leave_the_graph_alone() {
    let current = status(4, vec![pin("api", 1)]);
    let (decision, pins, changed) = decide_intent(Some(&current), vec![pin("api", 1)], false, false);
    assert_eq!(decision, IntentDecision::Unchanged);
    assert_eq!(pins.len(), 1);
    assert!(changed.is_empty());
}

#[test]
fn changed_pins_update_from_the_current_generation() {
    let current = status(4, vec![pin("api", 1), pin("web", 1)]);
    let (decision, pins, changed) = decide_intent(Some(&current), vec![pin("api", 2)], false, false);
    assert_eq!(decision, IntentDecision::Update { expected_generation: 4 });
    assert_eq!(pins.len(), 1);
    assert_eq!(changed, vec!["api".to_string(), "web".to_string()]);
}

#[test]
fn preserved_pins_join_the_request_in_component_order() {
    let current = status(4, vec![pin("web", 1), pin("api", 1), pin("db", 1)]);
    let (decision, pins, changed) = decide_intent(Some(&current), vec![pin("db", 2)], true, false);
    assert_eq!(decision, IntentDecision::Update { expected_generation: 4 });
    let shape: Vec<(&str, u128)> = pins.iter().map(|p| (p.component.as_str(), p.bundle.high)).collect();
    assert_eq!(shape, vec![("api", 1), ("db", 2), ("web", 1)]);
    assert_eq!(changed, vec!["db".to_string()]);
}

#[test]
fn missing_graphs_are_created_only_when_asked() {
    let (decision, _, changed) = decide_intent(None, vec![pin("api", 1)], true, true);
    assert_eq!(decision, IntentDecision::Create);
    assert_eq!(changed, vec!["api".to_string()]);
    let (decision, _, changed) = decide_intent(None, vec![pin("api", 1)], false, false);
    assert_eq!(decision, IntentDecision::Missing);
    assert!(changed.is_empty());
}
