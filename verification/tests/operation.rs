use henosis::operation::{
    changed_component_names, same_deployable_pin, same_deployable_pins, validate_bindings, ArtifactBinding,
    ArtifactRequirement, BundlePin, GraphPhase, GraphStatus, OperationError, WorkloadArtifactKind,
};
use henosis::resource::ContentDigest;
use henosis::operation::WorkloadArtifactKind::{CloudflareWorker, StaticAssets};

fn pin(digest: &str, source: Option<String>) -> BundlePin {
    BundlePin {
        component: "web".to_string(),
        bundle: ContentDigest { high: u128::from_be_bytes([0xaa; 16]), low: u128::from_be_bytes([0xaa; 16]) },
        input_bindings: vec![("workerArtifact".to_string(), digest.to_string())],
        source,
    }
}

fn named_pin(component: &str, digest: &str) -> BundlePin {
    BundlePin { component: component.to_string(), ..pin(digest, None) }
}

fn requirement(component: &str, input: &str, kind: WorkloadArtifactKind) -> ArtifactRequirement {
    ArtifactRequirement {
        component: component.to_owned(),
        input: input.to_owned(),
        kind,
        path: "worker.ts".to_owned(),
        source_path: "component.ts".to_owned(),
        line: 1,
        column: 1,
    }
}

fn binding(component: &str, input: &str, kind: WorkloadArtifactKind) -> ArtifactBinding {
    ArtifactBinding {
        component: component.to_owned(),
        input: input.to_owned(),
        kind,
        digest: "sha256:1111111111111111111111111111111111111111111111111111111111111111".to_owned(),
        source: "worker.ts".to_owned(),
        stored: "artifacts/11".to_owned(),
    }
}

#[test]
fn provenance_does_not_create_a_deployable_change() {
    let old = pin("sha256:11", None);
    let new = pin("sha256:11", Some("local checkout, dirty".to_string()));
    assert!(same_deployable_pins(&[old], &[new]));
}

#[test]
fn artifact_binding_change_is_deployable() {
    let mut current = GraphStatus::planning(u128::from_be_bytes([1; 16]), 1);
    current.bundles = vec![pin("sha256:11", None)];
    let desired = vec![pin("sha256:22", None)];
    assert_eq!(changed_component_names(Some(&current), &desired), ["web".to_string()]);
}

#[test]
fn duplicate_artifact_bindings_are_rejected() {
    let requirement = requirement("web", "workerArtifact", WorkloadArtifactKind::CloudflareWorker);
    let binding = binding("web", "workerArtifact", requirement.kind);
    let error = validate_bindings(&[requirement], &[binding.clone(), binding]).unwrap_err();
    assert!(matches!(error, OperationError::DuplicateArtifact { .. }));
}

#[test]
fn planning_status_starts_empty() {
    let status = GraphStatus::planning(7, 3);
    assert_eq!(status.phase, GraphPhase::Planning);
    assert_eq!(status.generation, 3);
    assert!(status.bundles.is_empty());
    assert_eq!(status.observed_ready, 0);
}

#[test]
fn binding_order_does_not_matter_but_values_do() {
    let mut a = pin("sha256:11", None);
    a.input_bindings.push(("assets".to_string(), "sha256:aa".to_string()));
    let mut b = pin("sha256:11", None);
    b.input_bindings.insert(0, ("assets".to_string(), "sha256:aa".to_string()));
    assert!(same_deployable_pin(&a, &b));
    b.input_bindings[0].1 = "sha256:bb".to_string();
    assert!(!same_deployable_pin(&a, &b));
    assert!(!same_deployable_pins(&[a.clone()], &[a.clone(), a]));
}

#[test]
fn changed_components_cover_additions_and_removals_in_order() {
    let mut current = GraphStatus::planning(1, 1);
    current.bundles = vec![named_pin("worker", "sha256:11"), named_pin("api", "sha256:11"), named_pin("db", "sha256:11")];
    let desired = vec![named_pin("web", "sha256:11"), named_pin("api", "sha256:11"), named_pin("db", "sha256:99")];
    assert_eq!(
        changed_component_names(Some(&current), &desired),
        vec!["db".to_string(), "web".to_string(), "worker".to_string()]
    );
    assert_eq!(changed_component_names(None, &desired), vec!["api".to_string(), "db".to_string(), "web".to_string()]);
}

#[test]
fn unexpected_missing_and_incompatible_artifacts_are_named() {
    let requirements = [requirement("web", "b", CloudflareWorker), requirement("web", "a", CloudflareWorker)];
    let error = validate_bindings(
        &requirements,
        &[binding("web", "a", CloudflareWorker), binding("web", "z", CloudflareWorker), binding("api", "x", CloudflareWorker)],
    )
    .unwrap_err();
    assert_eq!(error, OperationError::UnexpectedArtifact { component: "api".into(), input: "x".into() });

    let error = validate_bindings(&requirements, &[binding("web", "a", CloudflareWorker)]).unwrap_err();
    assert_eq!(error, OperationError::MissingArtifact { component: "web".into(), input: "b".into() });

    let error = validate_bindings(
        &requirements,
        &[binding("web", "b", StaticAssets), binding("web", "a", StaticAssets)],
    )
    .unwrap_err();
    assert_eq!(
        error,
        OperationError::IncompatibleArtifact {
            component: "web".into(),
            input: "a".into(),
            expected: CloudflareWorker,
            actual: StaticAssets,
        }
    );

    assert_eq!(
        validate_bindings(&requirements, &[binding("web", "b", CloudflareWorker), binding("web", "a", CloudflareWorker)]),
        Ok(())
    );
}

#[test]
fn a_later_requirement_decides_the_kind() {
    let requirements = [requirement("web", "a", CloudflareWorker), requirement("web", "a", StaticAssets)];
    assert_eq!(validate_bindings(&requirements, &[binding("web", "a", StaticAssets)]), Ok(()));
}
