use henosis::supabase::{fence_source, FenceSource, SupabaseOperation};
use henosis::textset::TextSet;

#[test]
fn api_configuration_keeps_its_observed_fence_and_the_rest_reobserve() {
    let configure = SupabaseOperation::ConfigureApi {
        graph: 1,
        resource: 2,
        schema: "app".into(),
        observed_digest: "sha256:abc".into(),
        exposed: TextSet::new(),
        anon_read: TextSet::new(),
    };
    assert!(matches!(fence_source(&configure), FenceSource::Carried(d) if d == "sha256:abc"));
    let drop = SupabaseOperation::DropSchema { graph: 1, resource: 2, schema: "app".into() };
    assert!(matches!(
        fence_source(&drop),
        FenceSource::Observe { graph: 1, resource: 2, schema } if schema == "app"
    ));
}
