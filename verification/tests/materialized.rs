use henosis::materialized::{CoreEvent, MaterializedCore, StoredOutput};
use henosis::resource::ContentDigest;

fn output(generation: u64, component: &str, name: &str, value: &str) -> StoredOutput {
    StoredOutput { generation, component: component.into(), name: name.into(), value: value.into(), source: None }
}

#[test]
fn folding_the_journal_materialises_each_graph() {
    let events = vec![
        CoreEvent::GraphCreated { graph_id: 1, generation: 1, intent: b"v1".to_vec() },
        CoreEvent::PlanAccepted { graph_id: 1, generation: 1, plan: ContentDigest { high: 0, low: 9 } },
        CoreEvent::ComponentOutputsReplaced {
            graph_id: 1,
            generation: 1,
            component: "api".into(),
            outputs: vec![output(1, "api", "url", "https://a"), output(1, "api", "port", "80")],
        },
        CoreEvent::StallDetected { graph_id: 1, stall: b"waiting".to_vec() },
        CoreEvent::GraphUpdated { graph_id: 1, generation: 2, intent: b"v2".to_vec() },
        CoreEvent::ComponentOutputsReplaced {
            graph_id: 1,
            generation: 2,
            component: "api".into(),
            outputs: vec![output(2, "api", "url", "https://b")],
        },
        CoreEvent::ControllerReported { graph_id: 1, controller: "cloudflare".into(), report: b"r1".to_vec() },
        CoreEvent::GraphCreated { graph_id: 2, generation: 1, intent: b"other".to_vec() },
        CoreEvent::GraphRetired { graph_id: 2, last_generation: 1 },
    ];
    let core = MaterializedCore::fold(&events);
    let graph = core.graph(1).unwrap();
    assert_eq!(graph.generation(), 2);
    assert_eq!(graph.plan(), Some((1, ContentDigest { high: 0, low: 9 })));
    assert!(!graph.is_stalled());
    assert!(!graph.is_retired());
    let values: Vec<(u64, String, String)> =
        graph.outputs().iter().map(|o| (o.generation, o.name.clone(), o.value.clone())).collect();
    assert_eq!(
        values,
        vec![(1, "url".to_string(), "https://a".to_string()), (1, "port".to_string(), "80".to_string()), (2, "url".to_string(), "https://b".to_string())]
    );
    assert!(core.graph(2).unwrap().is_retired());
    assert!(core.graph(3).is_none());
}

#[test]
fn a_replacement_drops_only_the_component_records_of_its_generation() {
    let mut core = MaterializedCore::new();
    core.apply(&CoreEvent::GraphCreated { graph_id: 5, generation: 1, intent: vec![] });
    core.apply(&CoreEvent::OutputsPublished {
        graph_id: 5,
        generation: 1,
        publication: 77,
        outputs: vec![output(1, "api", "url", "https://a"), output(1, "web", "url", "https://w")],
    });
    core.apply(&CoreEvent::ComponentOutputsReplaced { graph_id: 5, generation: 1, component: "api".into(), outputs: vec![] });
    let names: Vec<String> = core.graph(5).unwrap().outputs().iter().map(|o| o.component.clone()).collect();
    assert_eq!(names, vec!["web".to_string()]);
}
