use henosis::controller::ControllerPass;
use henosis::fixtures::{real_resources, RealProgram};
use henosis::lanes::{after_pass, after_report, retry_delay, LaneAction};

#[test]
fn retry_delays_double_from_one_second_up_to_thirty() {
    let delays: Vec<u64> = (0..9).map(retry_delay).collect();
    assert_eq!(delays, vec![1, 1, 2, 4, 8, 16, 30, 30, 30]);
    assert_eq!(retry_delay(u32::MAX), 30);
}

#[test]
fn lane_steps_follow_the_pass_outcome() {
    let (attempt, action) = after_pass(4, ControllerPass::Acted);
    assert_eq!(attempt, 0);
    assert!(matches!(action, LaneAction::RunAgain));
    let (attempt, action) = after_pass(2, ControllerPass::Retryable("offline".into()));
    assert_eq!(attempt, 3);
    assert!(matches!(action, LaneAction::RetryAfter(4)));
    let (attempt, action) = after_pass(u32::MAX, ControllerPass::Retryable("offline".into()));
    assert_eq!(attempt, u32::MAX);
    assert!(matches!(action, LaneAction::RetryAfter(30)));
    let (attempt, action) = after_pass(1, ControllerPass::Converged(None));
    assert_eq!(attempt, 1);
    assert!(matches!(action, LaneAction::Idle));
    let (attempt, action) = after_report(0, false);
    assert_eq!(attempt, 1);
    assert!(matches!(action, LaneAction::RetryAfter(1)));
    let (attempt, action) = after_report(5, true);
    assert_eq!(attempt, 5);
    assert!(matches!(action, LaneAction::Idle));
}

#[test]
fn real_program_emits_three_resources_and_two_bindings_per_index() {
    let (resources, bindings) = real_resources("platform", &RealProgram { revision: 1, resources_per_controller: 2 });
    assert_eq!(resources.len(), 6);
    assert_eq!(bindings.len(), 4);
    let names: Vec<&str> = resources.iter().map(|r| r.name.as_str()).collect();
    assert_eq!(names, vec!["k8s-0", "worker-0", "schema-0", "k8s-1", "worker-1", "schema-1"]);
    let mut id = [10u8; 16];
    id[15] = 1;
    assert_eq!(resources[3].id, id);
    assert_eq!(
        resources[0].canonical,
        "{\"apiVersion\":\"v1\",\"data\":{\"revision\":\"1\"},\"kind\":\"ConfigMap\",\"metadata\":{\"name\":\"config-0\"}}"
    );
    let digest = format!("sha256:{}", "01".repeat(32));
    assert_eq!(
        resources[1].canonical,
        format!(
            "{{\"compatibilityDate\":\"2026-07-16\",\"compatibilityFlags\":[],\"services\":{{}},\"source\":{{\"assets\":null,\"entry\":{{\"digest\":\"{digest}\",\"kind\":\"cloudflare-worker\"}}}},\"vars\":{{\"REVISION\":1}}}}"
        )
    );
    assert_eq!(
        resources[5].canonical,
        "{\"api\":{\"anonAccess\":\"none\",\"expose\":false},\"database\":\"postgres\",\"migrations\":[],\"project\":\"henosis-local\",\"schema\":\"app_1\",\"stack\":\"local\"}"
    );
    assert_eq!(resources[1].outputs, vec!["url".to_string()]);
    assert!(resources[0].outputs.is_empty());
    assert_eq!(bindings[2].name, "worker1Url");
    assert_eq!(bindings[2].resource.name, "worker-1");
    assert_eq!(bindings[3].name, "schema1");
    assert_eq!(bindings[3].output, "schema");
    assert_eq!(resources[4].controller, "cloudflare");
    assert_eq!(resources[4].kind.name, "cloudflare/worker");
}
