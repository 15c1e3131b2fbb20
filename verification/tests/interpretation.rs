use henosis::interpretation::{
    accept_interpretation, AttemptResource, ComponentOutput, OutputBinding, OutputRecord, StaticOutput,
};
use henosis::resource::OutputDeclaration;

fn decl(name: &str, observed: bool, optional: bool) -> ComponentOutput {
    ComponentOutput { name: name.into(), observed, optional }
}

fn resource(id: u128, instance: &str, address: &str) -> AttemptResource {
    AttemptResource {
        id,
        instance: instance.into(),
        address: address.into(),
        outputs: vec![
            OutputDeclaration { name: "url".into(), observed: true },
            OutputDeclaration { name: "region".into(), observed: false },
        ],
    }
}

fn stat(name: &str, value: &str) -> StaticOutput {
    StaticOutput { name: name.into(), value: value.into() }
}

fn bind(name: &str, resource: &str, output: &str) -> OutputBinding {
    OutputBinding { name: name.into(), resource: resource.into(), output: output.into() }
}

fn decls() -> Vec<ComponentOutput> {
    vec![decl("port", false, false), decl("endpoint", true, false), decl("note", false, true)]
}

fn error_of(statics: Vec<StaticOutput>, bindings: Vec<OutputBinding>) -> String {
    accept_interpretation("api", &decls(), &vec![resource(7, "api", "api/web")], Some((statics, bindings)), &vec![])
        .unwrap_err()
}

#[test]
fn resources_must_belong_to_the_component() {
    let err = accept_interpretation("api", &decls(), &vec![resource(7, "db", "db/web")], None, &vec![]).unwrap_err();
    assert_eq!(err, "resource belongs to another component");
}

#[test]
fn an_incomplete_attempt_keeps_no_outputs() {
    let old = vec![OutputRecord { name: "port".into(), value: "80".into(), source: None }];
    let accepted = accept_interpretation("api", &decls(), &vec![resource(7, "api", "api/web")], None, &old).unwrap();
    assert!(accepted.outputs.is_empty() && accepted.bindings.is_empty());
    assert!(accepted.changed);
    let unchanged = accept_interpretation("api", &decls(), &vec![], None, &vec![]).unwrap();
    assert!(!unchanged.changed);
}

#[test]
fn protocol_violations_are_refused_in_order() {
    let endpoint = || bind("endpoint", "api/web", "url");
    assert_eq!(error_of(vec![stat("other", "1")], vec![endpoint()]), "undeclared static output other");
    assert_eq!(error_of(vec![stat("endpoint", "x")], vec![]), "observed output endpoint returned as static");
    assert_eq!(error_of(vec![stat("port", "80")], vec![bind("ghost", "api/web", "url")]), "undeclared observed output ghost");
    assert_eq!(error_of(vec![stat("port", "80")], vec![bind("port", "api/web", "url")]), "static output port returned as observed");
    assert_eq!(
        error_of(vec![stat("port", "80")], vec![bind("endpoint", "api/other", "url")]),
        "observed binding points outside the component result"
    );
    assert_eq!(
        error_of(vec![stat("port", "80")], vec![bind("endpoint", "api/web", "zone")]),
        "resource does not declare observed output zone"
    );
    assert_eq!(
        error_of(vec![stat("port", "80")], vec![bind("endpoint", "api/web", "region")]),
        "resource output region is not observed"
    );
    assert_eq!(error_of(vec![], vec![endpoint()]), "required output port was omitted");
}

#[test]
fn accepted_outputs_replace_the_generation_ordered_by_name() {
    let observed = OutputRecord { name: "endpoint".into(), value: "https://a".into(), source: Some((7, "url".into())) };
    let stale = OutputRecord { name: "endpoint".into(), value: "https://old".into(), source: Some((8, "url".into())) };
    let old = vec![OutputRecord { name: "port".into(), value: "80".into(), source: None }, observed.clone(), stale];
    let accepted = accept_interpretation(
        "api",
        &decls(),
        &vec![resource(7, "api", "api/web")],
        Some((vec![stat("port", "8080")], vec![bind("endpoint", "api/web", "url")])),
        &old,
    )
    .unwrap();
    assert_eq!(accepted.bindings, vec![(7, "url".to_string(), "endpoint".to_string())]);
    assert_eq!(
        accepted.outputs,
        vec![observed.clone(), OutputRecord { name: "port".into(), value: "8080".into(), source: None }]
    );
    assert!(accepted.changed);
    // The same outputs again change nothing.
    let again = accept_interpretation(
        "api",
        &decls(),
        &vec![resource(7, "api", "api/web")],
        Some((vec![stat("port", "8080")], vec![bind("endpoint", "api/web", "url")])),
        &accepted.outputs,
    )
    .unwrap();
    assert!(!again.changed);
}
