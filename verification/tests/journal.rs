use henosis::journal::{
    accept_page, check_captured, settle_append, check_record_schema, classify_definite_failure, invalid_record, load_records, resolve_unknown_append, S2FailureKind,
    StorageFailure, StreamStore,
};
use henosis::memstore::{MemS2, StoredRecord};

struct BoundedReadStorage {
    inner: MemS2,
}

impl StreamStore for BoundedReadStorage {
    fn tail(&self, stream: &str) -> Result<u64, StorageFailure> {
        Ok(self.inner.tail(stream))
    }

    fn read(&self, stream: &str, from: u64, limit: usize) -> Result<Vec<StoredRecord>, StorageFailure> {
        let records = self.inner.read(stream, from, limit.min(1_000));
        let mut bytes = 0_usize;
        Ok(records
            .into_iter()
            .take_while(|record| {
                bytes = bytes.saturating_add(record.body.len());
                bytes <= 64 * 1024
            })
            .collect())
    }
}

fn storage() -> BoundedReadStorage {
    BoundedReadStorage { inner: MemS2::new() }
}

#[test]
fn replay_reads_every_page_past_count_and_byte_limits() {
    let mut storage = storage();
    let stream = "long-journal";
    let records = (0..1_201)
        .map(|index| {
            let mut body = vec![b'x'; 1_024];
            body[..8].copy_from_slice(&(index as u64).to_le_bytes());
            body
        })
        .collect::<Vec<_>>();
    let outcome = storage.inner.append(stream, 0, records).expect("fixture append succeeds");
    assert!(outcome.acknowledgement.is_some());

    let (loaded, tail) = load_records(&storage, stream).expect("all bounded pages replay");
    assert_eq!(loaded.len(), 1_201);
    assert_eq!(tail, 1_201);
    for (index, record) in loaded.iter().enumerate() {
        assert_eq!(record.sequence, index as u64);
    }
}

#[test]
fn replay_of_an_empty_stream_is_empty() {
    let storage = storage();
    let (loaded, tail) = load_records(&storage, "nothing").unwrap();
    assert!(loaded.is_empty());
    assert_eq!(tail, 0);
}

struct GappyStore;

impl StreamStore for GappyStore {
    fn tail(&self, _stream: &str) -> Result<u64, StorageFailure> {
        Ok(3)
    }

    fn read(&self, stream: &str, from: u64, _limit: usize) -> Result<Vec<StoredRecord>, StorageFailure> {
        if from == 0 {
            Ok(vec![StoredRecord { stream: stream.into(), sequence: 1, timestamp: 0, body: vec![] }])
        } else {
            Ok(vec![])
        }
    }
}

struct StalledStore;

impl StreamStore for StalledStore {
    fn tail(&self, _stream: &str) -> Result<u64, StorageFailure> {
        Ok(2)
    }

    fn read(&self, _stream: &str, _from: u64, _limit: usize) -> Result<Vec<StoredRecord>, StorageFailure> {
        Ok(vec![])
    }
}

#[test]
fn replay_refuses_gaps_and_stalls() {
    assert_eq!(
        load_records(&GappyStore, "s").unwrap_err(),
        StorageFailure::Invariant("journal read gap on s: expected sequence 0, got 1".into())
    );
    assert_eq!(
        load_records(&StalledStore, "s").unwrap_err(),
        StorageFailure::Invariant("journal read made no progress on s: cursor 0, captured tail 2".into())
    );
}

#[test]
fn unknown_commit_resolves_by_reading_back_the_records() {
    let mut storage = storage();
    let bodies = vec![b"one".to_vec(), b"two".to_vec()];
    storage.inner.append("graph", 0, vec![b"zero".to_vec()]).unwrap();
    storage.inner.append("graph", 1, bodies.clone()).unwrap();
    let ack = resolve_unknown_append(&storage, "graph", 1, &bodies).unwrap();
    assert_eq!((ack.start, ack.end), (1, 3));
    let other = vec![b"one".to_vec(), b"other".to_vec()];
    assert_eq!(
        resolve_unknown_append(&storage, "graph", 1, &other).unwrap_err(),
        StorageFailure::CasConflict { expected: 1, actual: 3 }
    );
    assert_eq!(
        resolve_unknown_append(&storage, "graph", 2, &bodies).unwrap_err(),
        StorageFailure::CasConflict { expected: 2, actual: 3 }
    );
}

#[test]
fn definite_service_failures_are_invariant_failures() {
    assert_eq!(
        classify_definite_failure(&S2FailureKind::Server("stream_not_found".into()), "gone".into()),
        StorageFailure::Invariant("gone".into())
    );
    assert_eq!(
        classify_definite_failure(&S2FailureKind::Server("unavailable".into()), "busy".into()),
        StorageFailure::Transient("busy".into())
    );
    assert_eq!(classify_definite_failure(&S2FailureKind::Client, "io".into()), StorageFailure::Transient("io".into()));
    assert_eq!(
        classify_definite_failure(&S2FailureKind::AppendConditionFailed, "cas".into()),
        StorageFailure::Invariant("cas".into())
    );
    assert_eq!(
        check_record_schema(2, "graph-x", 7).unwrap_err(),
        StorageFailure::Invariant("unsupported journal schema 2 on graph-x at sequence 7".into())
    );
    assert!(check_record_schema(1, "graph-x", 7).is_ok());
    assert_eq!(
        invalid_record("graph-x", 3, "eof"),
        StorageFailure::Invariant("invalid durable record on graph-x at sequence 3: eof".into())
    );
}

fn record(sequence: u64) -> StoredRecord {
    StoredRecord { stream: "s".into(), sequence, timestamp: 0, body: vec![sequence as u8] }
}

#[test]
fn pages_join_in_order_and_stop_at_the_captured_tail() {
    let mut records = vec![record(0)];
    assert_eq!(accept_page(&mut records, 1, 4, "s", &vec![record(1), record(2)]), Ok(3));
    assert_eq!(records.iter().map(|r| r.sequence).collect::<Vec<_>>(), vec![0, 1, 2]);
    assert_eq!(
        accept_page(&mut records, 3, 4, "s", &vec![record(3), record(4)]),
        Err(StorageFailure::Invariant("journal read passed captured tail on s".into()))
    );
    let mut fresh = Vec::new();
    assert_eq!(
        accept_page(&mut fresh, 0, 2, "s", &vec![record(0), record(5)]),
        Err(StorageFailure::Invariant("journal read gap on s: expected sequence 1, got 5".into()))
    );
    assert_eq!(
        accept_page(&mut fresh, 0, 2, "s", &Vec::new()),
        Err(StorageFailure::Invariant("journal read made no progress on s: cursor 0, captured tail 2".into()))
    );
}

#[test]
fn a_short_captured_tail_is_a_conflict() {
    assert_eq!(check_captured(5, 2, 6), Err(StorageFailure::CasConflict { expected: 5, actual: 6 }));
    assert_eq!(check_captured(5, 2, 7), Ok(()));
    assert_eq!(check_captured(u64::MAX, 2, u64::MAX), Ok(()));
}

#[test]
fn an_append_stands_only_when_every_body_matches() {
    let bodies = vec![b"one".to_vec(), b"two".to_vec()];
    let ack = settle_append(&bodies.clone(), &bodies, 4, 6).unwrap();
    assert_eq!((ack.start, ack.end), (4, 6));
    assert_eq!(
        settle_append(&vec![b"one".to_vec(), b"owt".to_vec()], &bodies, 4, 6).unwrap_err(),
        StorageFailure::CasConflict { expected: 4, actual: 6 }
    );
    assert_eq!(
        settle_append(&vec![b"one".to_vec()], &bodies, 4, 6).unwrap_err(),
        StorageFailure::CasConflict { expected: 4, actual: 6 }
    );
}
