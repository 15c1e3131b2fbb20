use henosis::evaluation::{
    apply_sticky_blocked, component_intent, convert_observed_outputs, convert_resources, convert_result,
    convert_static_outputs, ensure_output_completeness, json_string, schema_accepts, snapshot_wire, stable_resource_id,
    validate_metadata, validate_schema_value, Availability, BindingWire, BlockedWire, ComponentMetadata,
    EvaluationAttempt, EvaluationRequest, EvaluationResultWire, InputCell, InputMetadata, InputState, JsonValue,
    ObservedOutputBinding, OutputMetadata, OutputRef, ResourceContract, ResourceRegistry, ResourceWire, Schema,
    StaticOutput, StickyBlocked,
};
use henosis::names::{KindVersion, ResourceAddress};
use henosis::programs::{evaluate_program, ComponentProgram, ResourceProgram};

fn text(s: &str) -> JsonValue {
    JsonValue::String(s.to_string())
}

fn number(n: &str) -> JsonValue {
    JsonValue::Number(n.to_string())
}

fn object(entries: Vec<(&str, JsonValue)>) -> JsonValue {
    JsonValue::Object(entries.into_iter().map(|(k, v)| (k.to_string(), v)).collect())
}

fn output(availability: Availability, optional: bool, schema: Schema) -> OutputMetadata {
    OutputMetadata { availability, optional, schema }
}

fn metadata() -> ComponentMetadata {
    ComponentMetadata {
        name: "consumer".into(),
        inputs: vec![(
            "value".into(),
            InputMetadata { component: "producer".into(), output: "value".into(), optional: false },
        )],
        outputs: vec![
            ("endpoint".into(), output(Availability::Observed, false, Schema::Url)),
            ("label".into(), output(Availability::Static, false, Schema::String)),
            ("note".into(), output(Availability::Static, true, Schema::Json)),
        ],
    }
}

fn cell(name: &str, state: InputState) -> InputCell {
    InputCell {
        name: name.into(),
        source: OutputRef { component: "producer".into(), output: "value".into() },
        optional: false,
        state,
    }
}

fn request(state: InputState) -> EvaluationRequest {
    EvaluationRequest { graph_id: [7u8; 16], component: "consumer".into(), cells: vec![cell("value", state)] }
}

struct Registry;

impl ResourceRegistry for Registry {
    fn validate(&self, kind: &KindVersion, _body: &JsonValue) -> Result<ResourceContract, String> {
        if kind.name == "test/item" {
            Ok(ResourceContract::new("tester".into(), vec!["url".into(), "host".into(), "url".into()]))
        } else {
            Err("unsupported kind".into())
        }
    }
}

fn resource_wire(address: &str, kind: &str, name: &str) -> ResourceWire {
    ResourceWire {
        address: address.into(),
        kind: kind.into(),
        name: name.into(),
        body: object(vec![("size", number("3"))]),
        canonical: "{\"size\":3}".into(),
    }
}

#[test]
fn url_schema_accepts_only_http_and_https_strings() {
    assert!(schema_accepts(&Schema::Url, &text("https://example.test")));
    assert!(schema_accepts(&Schema::Url, &text("http://example.test")));
    assert!(!schema_accepts(&Schema::Url, &text("ftp://example.test")));
    assert!(!schema_accepts(&Schema::Url, &number("1")));
}

#[test]
fn nested_schemas_check_every_element_and_field() {
    let schema = Schema::Object(vec![
        ("port".into(), Schema::Number),
        ("tags".into(), Schema::Array(Box::new(Schema::String))),
    ]);
    let good = object(vec![
        ("extra", JsonValue::Null),
        ("port", number("8080")),
        ("tags", JsonValue::Array(vec![text("a"), text("b")])),
    ]);
    assert!(schema_accepts(&schema, &good));
    let bad_tag = object(vec![("port", number("1")), ("tags", JsonValue::Array(vec![text("a"), JsonValue::Bool(true)]))]);
    assert!(!schema_accepts(&schema, &bad_tag));
    let missing = object(vec![("tags", JsonValue::Array(vec![]))]);
    assert!(!schema_accepts(&schema, &missing));
    assert!(schema_accepts(&Schema::Json, &JsonValue::Null));
    let error = validate_schema_value(&Schema::Boolean, &text("yes"), "output flag").unwrap_err();
    assert_eq!(error.message, "output flag does not satisfy its declared schema");
}

#[test]
fn sticky_signal_turns_a_complete_result_into_a_blocked_one() {
    let complete = EvaluationResultWire::Complete {
        protocol_version: 1,
        resources: vec![resource_wire("test/item@1/main", "test/item@1", "main")],
        outputs: vec![],
        observed_outputs: vec![],
        reads: vec!["zeta".into(), "alpha".into(), "zeta".into()],
    };
    let sticky = StickyBlocked {
        input: "value".into(),
        source: "producer.value".into(),
        operation: "read".into(),
        message: "waiting".into(),
    };
    match apply_sticky_blocked(complete, Some(sticky)).unwrap() {
        EvaluationResultWire::Blocked { protocol_version, resources, blocked, reads } => {
            assert_eq!(protocol_version, 1);
            assert!(resources.is_empty());
            assert_eq!(blocked.code, "HENOSIS_BLOCKED");
            assert_eq!(blocked.input, "value");
            assert_eq!(blocked.source, "producer.value");
            assert_eq!(reads, vec!["alpha".to_string(), "value".to_string(), "zeta".to_string()]);
        },
        other => panic!("expected a blocked result, got {other:?}"),
    }
}

#[test]
fn sticky_signal_keeps_reads_that_already_name_the_input() {
    let complete = EvaluationResultWire::Complete {
        protocol_version: 1,
        resources: vec![],
        outputs: vec![],
        observed_outputs: vec![],
        reads: vec!["zeta".into(), "value".into()],
    };
    let sticky = StickyBlocked { input: "value".into(), source: "s".into(), operation: "o".into(), message: "m".into() };
    match apply_sticky_blocked(complete, Some(sticky)).unwrap() {
        EvaluationResultWire::Blocked { reads, .. } => {
            assert_eq!(reads, vec!["zeta".to_string(), "value".to_string()]);
        },
        other => panic!("expected a blocked result, got {other:?}"),
    }
}

#[test]
fn sticky_signal_must_agree_with_a_blocked_result() {
    let blocked = EvaluationResultWire::Blocked {
        protocol_version: 1,
        resources: vec![],
        blocked: BlockedWire {
            code: "HENOSIS_BLOCKED".into(),
            input: "other".into(),
            source: "producer.value".into(),
            operation: "read".into(),
            message: "m".into(),
        },
        reads: vec![],
    };
    let sticky =
        StickyBlocked { input: "value".into(), source: "producer.value".into(), operation: "read".into(), message: "m".into() };
    let error = apply_sticky_blocked(blocked, Some(sticky)).unwrap_err();
    assert_eq!(error.message, "SDK blocked result disagrees with the sticky host blocked signal");
    let untouched = EvaluationResultWire::Complete {
        protocol_version: 9,
        resources: vec![],
        outputs: vec![],
        observed_outputs: vec![],
        reads: vec![],
    };
    match apply_sticky_blocked(untouched, None).unwrap() {
        EvaluationResultWire::Complete { protocol_version, .. } => assert_eq!(protocol_version, 9),
        other => panic!("expected the result unchanged, got {other:?}"),
    }
}

#[test]
fn static_outputs_must_be_declared_static_and_fit() {
    let meta = metadata();
    let ok = convert_static_outputs(&meta, vec![("label".into(), text("hello"))]).unwrap();
    assert_eq!(ok.len(), 1);
    assert_eq!(ok[0].name, "label");
    let undeclared = convert_static_outputs(&meta, vec![("nope".into(), text("x"))]).unwrap_err();
    assert_eq!(undeclared.message, "result contains undeclared static output \"nope\"");
    let observed = convert_static_outputs(&meta, vec![("endpoint".into(), text("https://x"))]).unwrap_err();
    assert_eq!(observed.message, "observed output \"endpoint\" was returned as a static value");
    let misfit = convert_static_outputs(&meta, vec![("label".into(), number("1"))]).unwrap_err();
    assert_eq!(misfit.message, "output label does not satisfy its declared schema");
}

#[test]
fn observed_outputs_must_point_at_an_emitted_contract_output() {
    let meta = metadata();
    let address = ResourceAddress { kind: KindVersion { name: "test/item".into(), version: 1 }, name: "main".into() };
    let contracts = vec![(address, ResourceContract::new("tester".into(), vec!["url".into()]))];
    let ok = convert_observed_outputs(
        &meta,
        vec![("endpoint".into(), BindingWire { resource: "test/item@1/main".into(), output: "url".into() })],
        &contracts,
    )
    .unwrap();
    assert_eq!(ok[0].resource.name, "main");
    assert_eq!(ok[0].resource.kind.version, 1);
    let missing = convert_observed_outputs(
        &meta,
        vec![("endpoint".into(), BindingWire { resource: "test/item@1/other".into(), output: "url".into() })],
        &contracts,
    )
    .unwrap_err();
    assert_eq!(missing.message, "observed output \"endpoint\" points at un-emitted resource test/item@1/other");
    let undeclared_output = convert_observed_outputs(
        &meta,
        vec![("endpoint".into(), BindingWire { resource: "test/item@1/main".into(), output: "host".into() })],
        &contracts,
    )
    .unwrap_err();
    assert_eq!(undeclared_output.message, "resource test/item@1/main does not declare observed output host");
    let as_static = convert_observed_outputs(
        &meta,
        vec![("label".into(), BindingWire { resource: "test/item@1/main".into(), output: "url".into() })],
        &contracts,
    )
    .unwrap_err();
    assert_eq!(as_static.message, "static output \"label\" was returned as an observed binding");
}

#[test]
fn required_outputs_must_be_present() {
    let meta = metadata();
    let statics = vec![StaticOutput { name: "label".into(), value: text("x") }];
    let error = ensure_output_completeness(&meta, &statics, &vec![]).unwrap_err();
    assert_eq!(error.message, "required Observed output \"endpoint\" is missing");
    let bindings = vec![ObservedOutputBinding {
        name: "endpoint".into(),
        resource: ResourceAddress { kind: KindVersion { name: "test/item".into(), version: 1 }, name: "main".into() },
        output: "url".into(),
    }];
    assert!(ensure_output_completeness(&meta, &statics, &bindings).is_ok());
    let error = ensure_output_completeness(&meta, &vec![], &bindings).unwrap_err();
    assert_eq!(error.message, "required Static output \"label\" is missing");
}

#[test]
fn resource_ids_hash_graph_component_and_address() {
    let address = ResourceAddress { kind: KindVersion { name: "test/item".into(), version: 1 }, name: "main".into() };
    let id = stable_resource_id(&[7u8; 16], "consumer", &address);
    let mut hasher = blake3::Hasher::new();
    hasher.update(b"henosis-resource-id-v1\0");
    hasher.update(&[7u8; 16]);
    hasher.update(b"consumer");
    hasher.update(b"\0");
    hasher.update(b"test/item@1/main");
    assert_eq!(&id[..], &hasher.finalize().as_bytes()[..16]);
    let other = stable_resource_id(&[8u8; 16], "consumer", &address);
    assert_ne!(id, other);
}

#[test]
fn resources_are_checked_then_admitted_once_each() {
    let req = request(InputState::Absent);
    let (converted, contracts) =
        convert_resources(&req, vec![resource_wire("test/item@1/main", "test/item@1", "main")], &Registry).unwrap();
    assert_eq!(converted.len(), 1);
    assert_eq!(contracts.len(), 1);
    assert_eq!(converted[0].controller, "tester");
    assert_eq!(converted[0].outputs, vec!["host".to_string(), "url".to_string()]);
    assert_eq!(converted[0].canonical, "{\"size\":3}");
    let duplicate = convert_resources(
        &req,
        vec![
            resource_wire("test/item@1/main", "test/item@1", "main"),
            resource_wire("test/item@1/main", "test/item@1", "main"),
        ],
        &Registry,
    )
    .unwrap_err();
    assert_eq!(duplicate.message, "resource address test/item@1/main was emitted more than once");
    let mismatch =
        convert_resources(&req, vec![resource_wire("test/item@1/other", "test/item@1", "main")], &Registry).unwrap_err();
    assert_eq!(mismatch.message, "resource address \"test/item@1/other\" does not match kind/name test/item@1/main");
    let refused =
        convert_resources(&req, vec![resource_wire("test/thing@1/main", "test/thing@1", "main")], &Registry).unwrap_err();
    assert_eq!(refused.message, "resource test/thing@1/main is invalid: unsupported kind");
    let unversioned = convert_resources(&req, vec![resource_wire("x", "test/item", "main")], &Registry).unwrap_err();
    assert_eq!(unversioned.message, "resource kind \"test/item\" has no version suffix");
}

#[test]
fn complete_results_become_complete_attempts() {
    let req = request(InputState::Available(text("ready")));
    let wire = EvaluationResultWire::Complete {
        protocol_version: 1,
        resources: vec![resource_wire("test/item@1/main", "test/item@1", "main")],
        outputs: vec![("label".into(), text("hi"))],
        observed_outputs: vec![(
            "endpoint".into(),
            BindingWire { resource: "test/item@1/main".into(), output: "url".into() },
        )],
        reads: vec!["value".into()],
    };
    match convert_result(&req, &metadata(), wire, &Registry).unwrap() {
        EvaluationAttempt::Complete { resources, outputs, observed_outputs, reads } => {
            assert_eq!(resources.len(), 1);
            assert_eq!(outputs[0].name, "label");
            assert_eq!(observed_outputs[0].output, "url");
            assert_eq!(reads, vec!["value".to_string()]);
        },
        other => panic!("expected a complete attempt, got {other:?}"),
    }
    let old = EvaluationResultWire::Complete {
        protocol_version: 2,
        resources: vec![],
        outputs: vec![],
        observed_outputs: vec![],
        reads: vec![],
    };
    let error = convert_result(&req, &metadata(), old, &Registry).unwrap_err();
    assert_eq!(error.message, "result protocol version 2 does not match 1");
}

#[test]
fn blocked_results_must_name_a_declared_input_and_its_source() {
    let req = request(InputState::Blocked);
    let blocked = |code: &str, input: &str, source: &str| EvaluationResultWire::Blocked {
        protocol_version: 1,
        resources: vec![],
        blocked: BlockedWire {
            code: code.into(),
            input: input.into(),
            source: source.into(),
            operation: "read".into(),
            message: "waiting".into(),
        },
        reads: vec![input.into()],
    };
    match convert_result(&req, &metadata(), blocked("HENOSIS_BLOCKED", "value", "producer.value"), &Registry).unwrap() {
        EvaluationAttempt::Blocked { blocked, reads, .. } => {
            assert_eq!(blocked.input, "value");
            assert_eq!(blocked.source, OutputRef { component: "producer".into(), output: "value".into() });
            assert_eq!(reads, vec!["value".to_string()]);
        },
        other => panic!("expected a blocked attempt, got {other:?}"),
    }
    let code = convert_result(&req, &metadata(), blocked("OTHER", "value", "producer.value"), &Registry).unwrap_err();
    assert_eq!(code.message, "blocked result has unknown code \"OTHER\"");
    let undeclared = convert_result(&req, &metadata(), blocked("HENOSIS_BLOCKED", "ghost", "x.y"), &Registry).unwrap_err();
    assert_eq!(undeclared.message, "blocked result refers to an undeclared input");
    let source = convert_result(&req, &metadata(), blocked("HENOSIS_BLOCKED", "value", "producer.other"), &Registry)
        .unwrap_err();
    assert_eq!(source.message, "blocked source \"producer.other\" does not match declared source \"producer.value\"");
}

#[test]
fn metadata_must_match_the_request() {
    let req = request(InputState::Available(text("ready")));
    assert!(validate_metadata(&metadata(), &req).is_ok());
    let mut wrong = metadata();
    wrong.name = "other".into();
    assert_eq!(
        validate_metadata(&wrong, &req).unwrap_err().message,
        "bundle declares component other, but request is for consumer"
    );
    let absent = request(InputState::Absent);
    assert_eq!(validate_metadata(&metadata(), &absent).unwrap_err().message, "required input \"value\" cannot be absent");
    let mut renamed = metadata();
    renamed.inputs[0].0 = "missing".into();
    assert_eq!(
        validate_metadata(&renamed, &req).unwrap_err().message,
        "snapshot omitted declared input \"missing\""
    );
    let mut extra = metadata();
    extra.inputs.push((
        "second".into(),
        InputMetadata { component: "producer".into(), output: "value".into(), optional: true },
    ));
    assert_eq!(
        validate_metadata(&extra, &req).unwrap_err().message,
        "bundle input declarations do not match snapshot cells"
    );
    let mut bad_output = metadata();
    bad_output.outputs[1].0 = "bad_name".into();
    assert_eq!(
        validate_metadata(&bad_output, &req).unwrap_err().message,
        "invalid output name \"bad_name\"; expected 1-63 ASCII letters or digits, beginning with a letter"
    );
}

#[test]
fn bundle_metadata_becomes_a_component_intent() {
    let intent = component_intent([3u8; 32], metadata()).unwrap();
    assert_eq!(intent.name, "consumer");
    assert_eq!(intent.inputs.len(), 1);
    assert_eq!(intent.inputs[0].source.component, "producer");
    assert_eq!(intent.outputs.len(), 3);
    assert_eq!(intent.outputs[0].availability, Availability::Observed);
    let mut bad = metadata();
    bad.name = "Consumer".into();
    assert_eq!(
        component_intent([3u8; 32], bad).unwrap_err().message,
        "invalid component name \"Consumer\"; expected 1-63 lowercase letters, digits, underscores, or hyphens, beginning with a letter"
    );
}

#[test]
fn snapshots_are_written_as_compact_json() {
    let req = EvaluationRequest {
        graph_id: [0u8; 16],
        component: "consumer".into(),
        cells: vec![cell("a", InputState::Available(number("1"))), cell("b", InputState::Blocked), cell("c", InputState::Absent)],
    };
    let wire = snapshot_wire(&req);
    assert_eq!(
        json_string(&wire),
        "{\"inputs\":{\"a\":{\"state\":\"available\",\"value\":1},\"b\":{\"state\":\"blocked\"},\"c\":{\"state\":\"absent\"}},\"protocolVersion\":1}"
    );
}

#[test]
fn json_strings_are_escaped_as_serde_json_writes_them() {
    let raw = "q\"b\\s\u{8}\u{c}\n\r\t\u{1}\u{1f}é";
    let ours = json_string(&JsonValue::Array(vec![text(raw), JsonValue::Bool(false), JsonValue::Null]));
    let expected = format!("[{},false,null]", serde_json::to_string(raw).unwrap());
    assert_eq!(ours, expected);
}

#[test]
fn blocked_required_input_blocks_the_program() {
    let program = ComponentProgram {
        resources: vec![ResourceProgram {
            id: [1u8; 16],
            name: "main".into(),
            controller: "tester".into(),
            required_values: vec!["value".into()],
            observed_component_output: Some("url".into()),
        }],
        static_outputs: vec![("label".into(), text("hi"))],
    };
    match evaluate_program(&request(InputState::Blocked), &program).unwrap() {
        EvaluationAttempt::Blocked { resources, blocked, reads } => {
            assert!(resources.is_empty());
            assert_eq!(blocked.input, "value");
            assert_eq!(blocked.operation, "read value");
            assert_eq!(blocked.message, "waiting for deterministic input");
            assert_eq!(reads, vec!["value".to_string()]);
        },
        other => panic!("expected a blocked attempt, got {other:?}"),
    }
    match evaluate_program(&request(InputState::Available(number("5"))), &program).unwrap() {
        EvaluationAttempt::Complete { resources, outputs, observed_outputs, reads } => {
            assert_eq!(resources.len(), 1);
            assert_eq!(resources[0].kind, KindVersion { name: "test/resource".into(), version: 1 });
            assert_eq!(resources[0].canonical, "{\"value\":5}");
            assert_eq!(resources[0].outputs, vec!["url".to_string()]);
            assert_eq!(outputs[0].name, "label");
            assert_eq!(observed_outputs[0].name, "url");
            assert_eq!(observed_outputs[0].output, "url");
            assert_eq!(observed_outputs[0].resource.name, "main");
            assert_eq!(reads, vec!["value".to_string()]);
        },
        other => panic!("expected a complete attempt, got {other:?}"),
    }
}

#[test]
fn results_without_resources_convert_exactly_when_their_outputs_are_clean() {
    let req = request(InputState::Available(text("ready")));
    let complete = |outputs: Vec<(String, JsonValue)>, reads: Vec<String>| EvaluationResultWire::Complete {
        protocol_version: 1,
        resources: vec![],
        outputs,
        observed_outputs: vec![],
        reads,
    };
    // The observed endpoint is required, so a result without it is refused.
    let missing = convert_result(&req, &metadata(), complete(vec![("label".into(), text("hi"))], vec![]), &Registry);
    assert_eq!(missing.unwrap_err().message, "required Observed output \"endpoint\" is missing");
    let mut optional = metadata();
    optional.outputs[0].1.optional = true;
    let ok = convert_result(&req, &optional, complete(vec![("label".into(), text("hi"))], vec!["value".into()]), &Registry);
    assert!(matches!(ok, Ok(EvaluationAttempt::Complete { .. })));
    let bad_read = convert_result(&req, &optional, complete(vec![("label".into(), text("hi"))], vec!["no-such".into()]), &Registry);
    assert_eq!(
        bad_read.unwrap_err().message,
        "invalid read name: invalid input name \"no-such\"; expected 1-63 ASCII letters or digits, beginning with a letter"
    );
}

#[test]
fn the_first_refused_resource_names_the_error() {
    let req = request(InputState::Available(text("ready")));
    let wire = EvaluationResultWire::Complete {
        protocol_version: 1,
        resources: vec![resource_wire("test/item@1/other", "test/item@1", "main"), resource_wire("x", "bad", "main")],
        outputs: vec![],
        observed_outputs: vec![],
        reads: vec![],
    };
    assert_eq!(
        convert_result(&req, &metadata(), wire, &Registry).unwrap_err().message,
        "resource address \"test/item@1/other\" does not match kind/name test/item@1/main"
    );
}

#[test]
fn a_blocked_input_must_be_an_input_name() {
    let req = request(InputState::Blocked);
    let wire = EvaluationResultWire::Blocked {
        protocol_version: 1,
        resources: vec![],
        blocked: BlockedWire {
            code: "HENOSIS_BLOCKED".into(),
            input: "9lives".into(),
            source: "producer.value".into(),
            operation: "read".into(),
            message: "waiting".into(),
        },
        reads: vec![],
    };
    assert_eq!(
        convert_result(&req, &metadata(), wire, &Registry).unwrap_err().message,
        "invalid blocked input: invalid input name \"9lives\"; expected 1-63 ASCII letters or digits, beginning with a letter"
    );
}
