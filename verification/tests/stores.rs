use henosis::engine::{bundle_source, check_config, EngineConfig};
use henosis::memstore::{AppendAck, AppendFault, JournalError, MemS2, MemS2Append, MemS2Error};
use henosis::pinsync::{validate_pins, ComponentPin, GraphPins, PinSyncError};
use henosis::sim::{FakeTarget, RunStatus, Scenario, TargetFault, TargetOperation};
use henosis::stores::{
    lease_argument, verify_artifact, ArtifactStoreError, DirectoryArtifactStore, GitError, GitRepository,
};
use sha2::Digest;

#[test]
fn directory_artifact_store_verifies_content_address() {
    let bytes = b"export default { fetch() { return new Response('ok') } };".to_vec();
    let digest: [u8; 32] = sha2::Sha256::digest(&bytes).into();
    let store = DirectoryArtifactStore::new("/srv/artifacts".to_string());
    assert_eq!(store.path(&digest), format!("/srv/artifacts/sha256/{}", hex::encode(digest)));
    assert_eq!(verify_artifact(digest, bytes.clone()).unwrap(), bytes);
    let corrupt = b"corrupt".to_vec();
    assert!(matches!(verify_artifact(digest, corrupt), Err(ArtifactStoreError::DigestMismatch { .. })));
}

#[test]
fn artifact_paths_join_like_paths() {
    let digest = [0u8; 32];
    let zeros = "0".repeat(64);
    assert_eq!(DirectoryArtifactStore::new("root/".to_string()).path(&digest), format!("root/sha256/{zeros}"));
    assert_eq!(DirectoryArtifactStore::new(String::new()).path(&digest), format!("sha256/{zeros}"));
}

#[test]
fn git_values_render_like_the_cli_expects() {
    assert_eq!(lease_argument("env/test", "abc123"), "--force-with-lease=refs/heads/env/test:abc123");
    assert_eq!(lease_argument("main", ""), "--force-with-lease=refs/heads/main:");
    assert_eq!(GitError::PreconditionFailed.message(), "git publication changed since it was observed");
    assert_eq!(GitError::Command("exit 1".into()).message(), "git command failed: exit 1");
    assert_eq!(GitRepository::new("/srv/repo.git".into()).remote(), "/srv/repo.git");
}

#[test]
fn appends_compare_and_set_at_the_tail() {
    let mut store = MemS2::new();
    assert_eq!(store.tail("graph"), 0);
    let first = store.append("graph", 0, vec![b"a".to_vec(), b"b".to_vec()]).unwrap();
    assert_eq!(first, MemS2Append { acknowledgement: Some(AppendAck { start: 0, end: 2 }), committed: true });
    assert_eq!(
        store.append("graph", 0, vec![b"c".to_vec()]),
        Err(MemS2Error::CasConflict { expected: 0, actual: 2 })
    );
    assert_eq!(store.tail("graph"), 2);
    let read = store.read("graph", 1, 10);
    assert_eq!(read.len(), 1);
    assert_eq!(read[0].body, b"b".to_vec());
    assert_eq!(read[0].sequence, 1);
    assert_eq!(read[0].timestamp, 1);
    assert!(store.read("other", 0, 10).is_empty());
    assert!(store.read("graph", 5, 10).is_empty());
}

#[test]
fn scripted_faults_decide_what_commits() {
    let mut store = MemS2::new();
    store.script(vec![AppendFault::RejectBeforeCommit, AppendFault::CommitThenTimeout]);
    assert_eq!(store.append("s", 0, vec![b"x".to_vec()]), Err(MemS2Error::Rejected));
    assert_eq!(store.tail("s"), 0);
    assert_eq!(store.append("s", 0, vec![b"x".to_vec()]), Err(MemS2Error::TimeoutAfterCommit));
    assert_eq!(store.tail("s"), 1);
    assert!(store.append("s", 1, vec![b"y".to_vec()]).is_ok());
    let all = store.read("s", 0, 2);
    assert_eq!(all.iter().map(|r| r.body.clone()).collect::<Vec<_>>(), vec![b"x".to_vec(), b"y".to_vec()]);
}

#[test]
fn a_read_gives_back_what_was_appended() {
    let mut store = MemS2::new();
    store.append("s", 0, vec![b"one".to_vec()]).unwrap();
    let tail = store.tail("s");
    let bodies = vec![b"two".to_vec(), b"three".to_vec()];
    store.append("s", tail, bodies.clone()).unwrap();
    let read: Vec<Vec<u8>> = store.read("s", tail, 100).into_iter().map(|r| r.body).collect();
    assert_eq!(read, bodies);
}

#[test]
fn storage_errors_render() {
    assert_eq!(
        MemS2Error::CasConflict { expected: 3, actual: 5 }.message(),
        "append compare-and-set failed: expected 3, current tail is 5"
    );
    assert_eq!(
        JournalError::CasConflict { current_tail: 7 }.message(),
        "journal compare-and-append failed; current tail is 7"
    );
    assert_eq!(JournalError::NotFound.message(), "graph does not exist");
}

fn operation(key: &str, generation: u64, resources: Vec<u128>) -> TargetOperation {
    TargetOperation { idempotency_key: key.to_string(), generation, controller: "test".to_string(), resources }
}

#[test]
fn fake_target_applies_each_operation_once() {
    let mut target = FakeTarget::new();
    assert_eq!(target.apply(operation("k1", 1, vec![10, 11])), Ok(true));
    assert_eq!(target.generation_of(10), Some(1));
    assert_eq!(target.apply(operation("k1", 1, vec![10, 11])), Ok(false));
    let violation = target.apply(operation("k1", 2, vec![10])).unwrap_err();
    assert_eq!(violation.key, "k1");
    assert_eq!(violation.message(), "idempotency key k1 was reused for a different target operation");
    assert_eq!(target.generation_of(10), Some(1));
}

#[test]
fn fake_target_faults_limit_what_applies() {
    let mut target = FakeTarget::new();
    target.script(vec![TargetFault::PartialApply(1), TargetFault::FailBeforeApply, TargetFault::ApplyThenTimeout]);
    assert_eq!(target.apply(operation("a", 1, vec![1, 2])), Ok(true));
    assert_eq!(target.generation_of(1), Some(1));
    assert_eq!(target.generation_of(2), None);
    assert_eq!(target.apply(operation("b", 2, vec![3])), Ok(false));
    assert_eq!(target.generation_of(3), None);
    assert_eq!(target.apply(operation("c", 3, vec![4])), Ok(false));
    assert_eq!(target.generation_of(4), Some(3));
}

#[test]
fn scenarios_hold_at_least_one_source() {
    assert_eq!(Scenario::bounded(0).source_count, 1);
    assert_eq!(Scenario::bounded(4).source_count, 4);
    assert_ne!(RunStatus::Converged, RunStatus::Stalled);
}

#[test]
fn bundles_must_fit_and_be_text() {
    let config = EngineConfig::with_workers(2);
    assert_eq!(config.max_bundle_bytes, 2 * 1024 * 1024);
    assert_eq!(config.timeout_millis, 250);
    assert_eq!(bundle_source(b"export {}".to_vec(), &config).unwrap(), "export {}");
    let small = EngineConfig { max_bundle_bytes: 3, ..config };
    assert_eq!(
        bundle_source(b"export {}".to_vec(), &small).unwrap_err().message,
        "bundle is 9 bytes, exceeding the 3 byte limit"
    );
    assert_eq!(bundle_source(vec![0xff, 0xfe], &config).unwrap_err().message, "bundle is not UTF-8 JavaScript source");
}

#[test]
fn pin_files_need_complete_pins() {
    let pin = |digest: &str, rev: &str| ComponentPin { bundle_digest: digest.to_string(), source_rev: rev.to_string() };
    let mut pins = GraphPins {
        schema: 1,
        graph: "graph_01".to_string(),
        generation: 7,
        components: vec![("api".to_string(), pin("blake3:aa", "0123")), ("web".to_string(), pin("blake3:bb", ""))],
    };
    assert_eq!(
        validate_pins(&pins),
        Err(PinSyncError::Decode("graph graph_01 component \"web\" requires bundle_digest and source_rev".to_string()))
    );
    pins.components.pop();
    assert_eq!(validate_pins(&pins), Ok(()));
    pins.generation = 0;
    assert_eq!(
        validate_pins(&pins),
        Err(PinSyncError::Decode("graph graph_01 generation must be greater than zero".to_string()))
    );
    pins.schema = 2;
    assert_eq!(
        validate_pins(&pins),
        Err(PinSyncError::Decode("graph graph_01 uses unsupported pin-file schema 2; expected 1".to_string()))
    );
}

#[test]
fn engine_limits_are_admitted_before_any_worker_starts() {
    assert!(check_config(&EngineConfig::with_workers(2)).is_ok());
    assert_eq!(
        check_config(&EngineConfig::with_workers(0)).unwrap_err().message,
        "evaluation engine requires at least one isolate worker"
    );
    let mut small = EngineConfig::with_workers(1);
    small.max_heap_bytes = 8 * 1024 * 1024 - 1;
    assert_eq!(check_config(&small).unwrap_err().message, "evaluation heap limit must be at least 8 MiB");
    small.max_heap_bytes = 8 * 1024 * 1024;
    assert!(check_config(&small).is_ok());
}
