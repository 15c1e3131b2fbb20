use henosis::supabase::{api_steps, check_fence, operation_identity, operation_steps, SqlStep, SupabaseError, SupabaseOperation};
use henosis::textset::TextSet;

fn set(items: &[&str]) -> TextSet {
    let mut s = TextSet::new();
    for i in items {
        s.insert(i.to_string());
    }
    s
}

#[test]
fn api_configuration_exposes_schemas_and_sets_anonymous_reads() {
    let batches = api_steps(&set(&["public", "app", "open"]), &set(&["open"]));
    assert_eq!(batches.len(), 4);
    assert_eq!(batches[0], "alter role postgres set pgrst.db_schemas = 'app,open,public';");
    assert!(batches[1].starts_with("revoke select on all tables in schema \"app\" from anon;"));
    assert!(batches[2].starts_with("grant usage on schema \"open\";"));
    assert_eq!(batches[3], "notify pgrst, 'reload config'; notify pgrst, 'reload schema';");
}

#[test]
fn schema_creation_quotes_the_schema_and_records_ownership() {
    let op = SupabaseOperation::EnsureSchema { graph: 1, resource: 2, schema: "we\"ird".into() };
    let steps = operation_steps(&op);
    assert_eq!(steps[0], SqlStep::Batch("create schema \"we\"\"ird\"; revoke all on schema \"we\"\"ird\" from public;".into()));
    match &steps[1] {
        SqlStep::Record { graph, resource, values, .. } => assert_eq!((*graph, *resource, values.clone()), (1, 2, vec!["we\"ird".to_string()])),
        other => panic!("unexpected {other:?}"),
    }
    assert_eq!(operation_identity(&op), (1, 2, "we\"ird"));
}

#[test]
fn dropping_a_schema_forgets_its_records() {
    let op = SupabaseOperation::DropSchema { graph: 1, resource: 2, schema: "app".into() };
    let steps = operation_steps(&op);
    assert_eq!(steps.len(), 3);
    assert_eq!(steps[0], SqlStep::Batch("drop schema \"app\" cascade;".into()));
}

#[test]
fn a_changed_target_fences_the_operation() {
    assert!(check_fence("a", "a").is_ok());
    match check_fence("a", "b") {
        Err(SupabaseError::Unavailable(m)) => assert_eq!(m, "target changed after observation; retry from fresh state"),
        other => panic!("unexpected {other:?}"),
    }
}
