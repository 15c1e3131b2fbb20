use henosis::pinsync::{admit_pin_files, plan_pin_sync, same_pins, ComponentPin, GraphPins, PinSyncError};

fn pins(graph: &str, generation: u64, digest: &str) -> GraphPins {
    GraphPins {
        schema: 1,
        graph: graph.into(),
        generation,
        components: vec![("api".into(), ComponentPin { bundle_digest: digest.into(), source_rev: "0123".into() })],
    }
}

#[test]
fn pin_directories_skip_other_files_and_refuse_misnamed_or_duplicate_graphs() {
    let files = vec![
        ("README.md".to_string(), Err("not a pin file".to_string())),
        ("g1.toml".to_string(), Ok(pins("g1", 1, "blake3:aa"))),
        ("g2.toml".to_string(), Ok(pins("g2", 3, "blake3:bb"))),
    ];
    let admitted = admit_pin_files(files).unwrap();
    assert_eq!(admitted.len(), 2);
    assert_eq!(admitted[1].graph, "g2");
    let misnamed = vec![("other.toml".to_string(), Ok(pins("g1", 1, "blake3:aa")))];
    assert_eq!(
        admit_pin_files(misnamed).unwrap_err(),
        PinSyncError::Decode("other.toml: graph identity requires filename g1.toml".into())
    );
    let undecodable = vec![("g1.toml".to_string(), Err("g1.toml: expected `=`".to_string()))];
    assert_eq!(admit_pin_files(undecodable).unwrap_err(), PinSyncError::Decode("g1.toml: expected `=`".into()));
    let stale = vec![("g1.toml".to_string(), Ok(pins("g1", 0, "blake3:aa")))];
    assert_eq!(
        admit_pin_files(stale).unwrap_err(),
        PinSyncError::Decode("graph g1 generation must be greater than zero".into())
    );
}

#[test]
fn polls_apply_changed_pins_and_retire_removed_graphs() {
    let seen = vec![pins("g1", 1, "blake3:aa"), pins("g2", 1, "blake3:bb")];
    let incoming = vec![pins("g1", 1, "blake3:aa"), pins("g3", 2, "blake3:cc")];
    let (applies, retires) = plan_pin_sync(&seen, &incoming);
    assert_eq!(applies, vec![1]);
    assert_eq!(retires, vec!["g2".to_string()]);
    let changed = vec![pins("g1", 2, "blake3:aa"), pins("g2", 1, "blake3:bb")];
    let (applies, retires) = plan_pin_sync(&seen, &changed);
    assert_eq!(applies, vec![0]);
    assert!(retires.is_empty());
    assert!(same_pins(&seen[0], &pins("g1", 1, "blake3:aa")));
    assert!(!same_pins(&seen[0], &pins("g1", 1, "blake3:ab")));
}
