use henosis::evaluation::JsonValue;
use henosis::stores::GitError;
use henosis::k8s::{
    check_directory_unchanged, publication_id, publication_marker, render, resource_path, validate_object, K8sResource, K8sState, PublishedFiles,
};

fn object(entries: Vec<(&str, JsonValue)>) -> JsonValue {
    JsonValue::Object(entries.into_iter().map(|(k, v)| (k.to_string(), v)).collect())
}

fn text(s: &str) -> JsonValue {
    JsonValue::String(s.to_string())
}

fn deployment() -> JsonValue {
    object(vec![("apiVersion", text("apps/v1")), ("kind", text("Deployment"))])
}

fn resource(id: u128, name: &str) -> K8sResource {
    K8sResource {
        id,
        id_text: format!("res{id}"),
        path: format!("api/k8s/object@1/{name}"),
        instance: "api".into(),
        name: name.into(),
        kind: "k8s/object".into(),
        version: 1,
        body: deployment(),
        yaml: Ok("apiVersion: apps/v1\nkind: Deployment\n".into()),
    }
}

#[test]
fn objects_need_the_kubernetes_kind_and_string_type_fields() {
    assert!(validate_object("api/x", "k8s/object", 1, &deployment()).is_ok());
    assert_eq!(
        validate_object("api/x", "k8s/object", 2, &deployment()).unwrap_err(),
        "error[k8s.kind.unsupported]: api/x owns k8s/object@2, expected k8s/object@1\n  = help: emit native Kubernetes objects through @henosis/platform-k8s"
    );
    assert_eq!(
        validate_object("api/x", "k8s/object", 1, &text("no")).unwrap_err(),
        "error[k8s.object.invalid]: api/x body is not an object"
    );
    let untyped = object(vec![("apiVersion", text("v1")), ("kind", JsonValue::Number("3".into()))]);
    assert_eq!(
        validate_object("api/x", "k8s/object", 1, &untyped).unwrap_err(),
        "error[k8s.object.invalid]: api/x is missing string field \"kind\""
    );
}

#[test]
fn markers_and_paths_follow_the_publication_layout() {
    assert_eq!(
        publication_marker("g1", 3, "abc"),
        b"{\"graph\":\"g1\",\"generation\":3,\"planDigest\":\"abc\"}\n".to_vec()
    );
    assert_eq!(resource_path("api", "deployment", "r4"), "components/api/deployment--r4.yaml");
    let id = publication_id(b"rev-a");
    let hash = blake3::hash(b"rev-a");
    let mut expected = [0u8; 16];
    expected.copy_from_slice(&hash.as_bytes()[..16]);
    assert_eq!(id, u128::from_be_bytes(expected));
}

#[test]
fn rendering_lists_marker_and_one_yaml_file_per_resource() {
    let graph = render("g1", 1, "plan", vec![resource(4, "deployment"), resource(5, "service")]).unwrap();
    let files = graph.files;
    assert_eq!(files.get(".henosis-publication.json").unwrap(), &publication_marker("g1", 1, "plan"));
    assert_eq!(
        files.get("components/api/deployment--res4.yaml").unwrap(),
        &b"---\napiVersion: apps/v1\nkind: Deployment\n".to_vec()
    );
    assert!(files.get("components/api/service--res5.yaml").is_some());
    assert!(files.get("components/api/other.yaml").is_none());
    let mut broken = resource(6, "broken");
    broken.yaml = Err("unrepresentable".into());
    assert_eq!(
        render("g1", 1, "plan", vec![broken]).unwrap_err(),
        "cannot serialize api/k8s/object@1/broken as YAML: unrepresentable"
    );
}

#[test]
fn unchanged_graph_reuses_its_revision_and_retirement_forgets_it() {
    let mut state = K8sState::new();
    let first = render("g1", 1, "plan", vec![resource(4, "deployment")]).unwrap();
    assert!(state.unchanged_revision(7, &first.files).is_none());
    state.record(7, first, "rev-a".into());
    let again = render("g1", 1, "plan", vec![resource(4, "deployment")]).unwrap();
    assert_eq!(state.unchanged_revision(7, &again.files), Some("rev-a".to_string()));
    let changed = render("g1", 2, "plan", vec![resource(4, "deployment")]).unwrap();
    assert!(state.unchanged_revision(7, &changed.files).is_none());
    assert!(state.supersede(7, &vec![4]));
    let left = state.files_of(7).unwrap();
    assert!(left.get("components/api/deployment--res4.yaml").is_none());
    assert!(left.get(".henosis-publication.json").is_some());
    assert!(!state.supersede(8, &vec![4]));
    state.set_revision(7, "rev-b".into());
    state.retire(7);
    assert!(state.files_of(7).is_none());
    let empty = PublishedFiles::new();
    assert!(state.unchanged_revision(7, &empty).is_none());
}

#[test]
fn a_directory_changed_since_it_was_read_is_not_replaced() {
    let mut expected = PublishedFiles::new();
    expected.insert("a.yaml".into(), b"one".to_vec());
    expected.insert("b.yaml".into(), b"two".to_vec());
    let mut found = PublishedFiles::new();
    found.insert("b.yaml".into(), b"two".to_vec());
    found.insert("a.yaml".into(), b"one".to_vec());
    assert_eq!(check_directory_unchanged(&found, &expected), Ok(()));
    found.insert("a.yaml".into(), b"edited".to_vec());
    assert_eq!(check_directory_unchanged(&found, &expected), Err(GitError::PreconditionFailed));
    assert_eq!(check_directory_unchanged(&PublishedFiles::new(), &expected), Err(GitError::PreconditionFailed));
}
