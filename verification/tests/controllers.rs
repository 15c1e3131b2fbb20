use henosis::cloudflare::{
    cloudflare_rank, diff as cloudflare_diff, redact_command_detail, ArtifactKind, ArtifactReference, CloudflareAction,
    CloudflareDecision, CloudflareError, CloudflareObservation, DesiredBody, RouteBody, RouteObservation, SourceRef,
    WorkerBody, WorkerObservation,
};
use henosis::resource::{collect, output, ContentDigest, OutputDeclaration, Resource, ResourceGoal};
use henosis::supabase::{
    decode_body, diff as supabase_diff, observation_digest, prepare_migration, quote_identifier, quote_literal,
    validate_body, AnonymousAccess, ApiPolicy, MigrationRef, PreparedMigration, SchemaBody, SupabaseDecision,
    SupabaseError, SupabaseObservation, SupabaseOperation, SupabaseResourceObservation,
};
use henosis::textset::TextSet;
use sha2::Digest;

fn resource(kind: &str, outputs: &[(&str, bool)]) -> Resource {
    Resource {
        id: 42,
        controller: "test".into(),
        kind_name: kind.into(),
        kind_version: 1,
        digest: ContentDigest { high: 1, low: 2 },
        path: "app/api".into(),
        outputs: outputs.iter().map(|(n, o)| OutputDeclaration { name: n.to_string(), observed: *o }).collect(),
    }
}

fn worker_body() -> WorkerBody {
    WorkerBody {
        source: SourceRef {
            entry: ArtifactReference { kind: ArtifactKind::CloudflareWorker, digest: ContentDigest { high: 1, low: 2 } },
            assets: None,
        },
        compatibility_date: Some("2026-01-01".into()),
        compatibility_flags: vec![],
        vars: vec![],
        services: vec![],
    }
}

fn route_body() -> RouteBody {
    RouteBody { pattern: "example.com/*".into(), zone: "example.com".into(), worker_name: "henosis-api".into() }
}

fn sha(bytes: &[u8]) -> String {
    format!("sha256:{}", hex::encode(sha2::Sha256::digest(bytes)))
}

#[test]
fn failed_commands_keep_their_first_visible_line() {
    assert_eq!(redact_command_detail("\n  \n  error: token expired  \r\nmore"), "error: token expired");
    assert_eq!(redact_command_detail(" \n\t"), "verification failed");
    assert_eq!(redact_command_detail(&"x".repeat(300)).len(), 240);
}

#[test]
fn workers_converge_one_action_per_pass_without_flapping() {
    let worker = resource("cloudflare/worker", &[("url", true), ("workerName", true)]);
    let observation = WorkerObservation {
        url: "https://api.example.workers.dev".into(),
        worker_name: "henosis-api-00000042".into(),
        deployment_id: "dep-1".into(),
        version_id: "v1".into(),
    };
    let step = |observed: &CloudflareObservation| {
        cloudflare_diff(&worker, ResourceGoal::Present, observed, Ok(DesiredBody::Worker(worker_body())))
    };
    assert!(matches!(
        step(&CloudflareObservation::Missing),
        Ok(CloudflareDecision::Act(CloudflareAction::UploadWorker(b))) if b == worker_body()
    ));
    let stale = CloudflareObservation::Worker {
        digest: ContentDigest { high: 9, low: 9 },
        subdomain_enabled: true,
        observation: observation.clone(),
    };
    assert!(matches!(step(&stale), Ok(CloudflareDecision::Act(CloudflareAction::UploadWorker(_)))));
    let hidden = CloudflareObservation::Worker { digest: worker.digest, subdomain_enabled: false, observation: observation.clone() };
    assert!(matches!(step(&hidden), Ok(CloudflareDecision::Act(CloudflareAction::EnableWorkerSubdomain))));
    let live = CloudflareObservation::Worker { digest: worker.digest, subdomain_enabled: true, observation };
    let Ok(CloudflareDecision::Converged(convergence)) = step(&live) else { panic!("converged") };
    let pairs: Vec<(String, String)> = convergence.outputs.iter().map(|o| (o.name.clone(), o.value.clone())).collect();
    assert_eq!(
        pairs,
        vec![
            ("url".to_string(), "https://api.example.workers.dev".to_string()),
            ("workerName".to_string(), "henosis-api-00000042".to_string()),
        ]
    );
    assert_eq!(convergence.evidence, b"dep-1".to_vec());
    // Converged stays converged.
    assert!(matches!(step(&live), Ok(CloudflareDecision::Converged(_))));
}

#[test]
fn an_undecodable_body_is_refused_only_when_it_is_sent() {
    let route = resource("cloudflare/route", &[("hostname", true)]);
    let broken = || Err::<DesiredBody, String>("missing field `zone`".into());
    let Err(CloudflareError::Contract(message)) =
        cloudflare_diff(&route, ResourceGoal::Present, &CloudflareObservation::Missing, broken())
    else {
        panic!("an undecodable body is refused")
    };
    assert_eq!(message, "error[cloudflare.body.invalid]: app/api: missing field `zone`");
    let matching = CloudflareObservation::Route { matches: true, observation: RouteObservation { hostname: "example.com".into() } };
    assert!(matches!(
        cloudflare_diff(&route, ResourceGoal::Present, &matching, broken()),
        Ok(CloudflareDecision::Converged(_))
    ));
    let stale = CloudflareObservation::Route { matches: false, observation: RouteObservation { hostname: "old.com".into() } };
    assert!(matches!(
        cloudflare_diff(&route, ResourceGoal::Present, &stale, Ok(DesiredBody::Route(route_body()))),
        Ok(CloudflareDecision::Act(CloudflareAction::WriteRoute(b))) if b == route_body()
    ));
}

#[test]
fn refuses_right_identity_with_wrong_ownership_metadata() {
    let route = resource("cloudflare/route", &[]);
    let Err(CloudflareError::Provider(message)) = cloudflare_diff(&route, ResourceGoal::Present, &CloudflareObservation::Foreign, Ok(DesiredBody::Route(route_body())))
    else {
        panic!("foreign resources are refused")
    };
    assert!(message.contains("ownership metadata/identity does not match"));
}

#[test]
fn absence_deletes_what_exists() {
    let route = resource("cloudflare/route", &[]);
    let observed = CloudflareObservation::Route { matches: true, observation: RouteObservation { hostname: "example.com".into() } };
    assert!(matches!(
        cloudflare_diff(&route, ResourceGoal::Absent, &observed, Ok(DesiredBody::Route(route_body()))),
        Ok(CloudflareDecision::Act(CloudflareAction::Delete))
    ));
    assert!(matches!(
        cloudflare_diff(&route, ResourceGoal::Absent, &CloudflareObservation::Missing, Ok(DesiredBody::Route(route_body()))),
        Ok(CloudflareDecision::Converged(c)) if c.outputs.is_empty()
    ));
    assert!(cloudflare_rank(ResourceGoal::Present, "cloudflare/tunnel", false) < cloudflare_rank(ResourceGoal::Present, "cloudflare/route", false));
}

#[test]
fn outputs_must_be_declared_and_observed() {
    let r = resource("test/item", &[("url", true), ("static", false)]);
    assert_eq!(output(&r, "url", "x".into()).unwrap().value, "x");
    assert!(output(&r, "missing", "x".into()).is_err());
    assert!(output(&r, "static", "x".into()).is_err());
    let err = collect(&r, &vec!["static"], &vec!["v".to_string()]).unwrap_err();
    assert_eq!(err, "cannot build controller output: app/api.static is not an observed output");
}

fn body(migrations: Vec<MigrationRef>) -> SchemaBody {
    SchemaBody {
        stack: "local".into(),
        project: "henosis-local".into(),
        database: "postgres".into(),
        schema: "catalog".into(),
        migrations,
        api: ApiPolicy { expose: true, anon_access: AnonymousAccess::Read },
    }
}

fn texts(items: &[&str]) -> TextSet {
    let mut set = TextSet::new();
    for item in items {
        set.insert(item.to_string());
    }
    set
}

fn schema_resource() -> Resource {
    resource("supabase/schema", &[("schema", true), ("restUrl", true)])
}

#[test]
fn supabase_converges_one_operation_per_pass_without_flapping() {
    let sql = b"create table items(id int);".to_vec();
    let migration = MigrationRef { id: "001".into(), path: "migrations/001.sql".into(), sha256: sha(&sql) };
    let prepared = prepare_migration(&schema_resource(), &migration, sql.clone()).unwrap();
    let mut target = SupabaseObservation {
        schema_exists: false,
        owned_schema: None,
        migrations: Vec::new(),
        exposed: texts(&["public"]),
        anon_read: texts(&[]),
    };
    let mut expected = vec!["ensure schema", "apply migration", "configure API"].into_iter();
    loop {
        let observed = SupabaseResourceObservation {
            target: SupabaseObservation {
                schema_exists: target.schema_exists,
                owned_schema: target.owned_schema.clone(),
                migrations: target.migrations.clone(),
                exposed: target.exposed.copied(),
                anon_read: target.anon_read.copied(),
            },
            body: body(vec![migration.clone()]),
            migrations: vec![PreparedMigration { id: prepared.id.clone(), checksum: prepared.checksum.clone(), sql: prepared.sql.clone() }],
        };
        match supabase_diff(7, &schema_resource(), ResourceGoal::Present, &observed, "http://127.0.0.1:54321/", "db-ref", "anon-ref").unwrap() {
            SupabaseDecision::Act(SupabaseOperation::EnsureSchema { schema, .. }) => {
                assert_eq!(expected.next(), Some("ensure schema"), "ensure schema is the sole action in its pass");
                target.schema_exists = true;
                target.owned_schema = Some(schema);
            }
            SupabaseDecision::Act(SupabaseOperation::ApplyMigration { id, checksum, .. }) => {
                assert_eq!(expected.next(), Some("apply migration"), "apply migration is the sole action in its pass");
                target.migrations.push((id, checksum));
            }
            SupabaseDecision::Act(SupabaseOperation::ConfigureApi { exposed, anon_read, observed_digest, .. }) => {
                assert_eq!(expected.next(), Some("configure API"), "configure API is the sole action in its pass");
                assert_eq!(observed_digest, observation_digest(&observed.target));
                assert_eq!(exposed.items(), &vec!["catalog".to_string(), "public".to_string()]);
                assert_eq!(anon_read.items(), &vec!["catalog".to_string()]);
                target.exposed = exposed;
                target.anon_read = anon_read;
            }
            SupabaseDecision::Act(other) => panic!("unexpected {other:?}"),
            SupabaseDecision::Converged(convergence) => {
                assert_eq!(expected.next(), None);
                let pairs: Vec<(String, String)> =
                    convergence.outputs.iter().map(|o| (o.name.clone(), o.value.clone())).collect();
                assert_eq!(
                    pairs,
                    vec![
                        ("schema".to_string(), "catalog".to_string()),
                        ("restUrl".to_string(), "http://127.0.0.1:54321/rest/v1".to_string()),
                    ]
                );
                assert_eq!(convergence.evidence, observation_digest(&target).into_bytes());
                break;
            }
        }
    }
}

#[test]
fn refuses_schema_without_matching_receipt() {
    let observed = SupabaseResourceObservation {
        target: SupabaseObservation {
            schema_exists: true,
            owned_schema: Some("other".into()),
            migrations: Vec::new(),
            exposed: texts(&["public"]),
            anon_read: texts(&[]),
        },
        body: body(Vec::new()),
        migrations: Vec::new(),
    };
    let Err(SupabaseError::Provider(message)) =
        supabase_diff(1, &schema_resource(), ResourceGoal::Present, &observed, "u", "d", "a")
    else {
        panic!("refused")
    };
    assert_eq!(
        message,
        "refusing to mutate schema \"catalog\" for app/api because no matching graph/resource ownership receipt exists"
    );
}

#[test]
fn retirement_withdraws_exposure_then_drops_the_schema() {
    let mut observed = SupabaseResourceObservation {
        target: SupabaseObservation {
            schema_exists: true,
            owned_schema: Some("catalog".into()),
            migrations: vec![("001".into(), "sha256:x".into())],
            exposed: texts(&["catalog", "public"]),
            anon_read: texts(&["catalog"]),
        },
        body: body(Vec::new()),
        migrations: Vec::new(),
    };
    let first = supabase_diff(1, &schema_resource(), ResourceGoal::Absent, &observed, "u", "d", "a").unwrap();
    let SupabaseDecision::Act(SupabaseOperation::ConfigureApi { exposed, anon_read, .. }) = first else { panic!("configure") };
    assert_eq!(exposed.items(), &vec!["public".to_string()]);
    assert!(anon_read.items().is_empty());
    observed.target.exposed = exposed;
    observed.target.anon_read = anon_read;
    let second = supabase_diff(1, &schema_resource(), ResourceGoal::Absent, &observed, "u", "d", "a").unwrap();
    assert!(matches!(second, SupabaseDecision::Act(SupabaseOperation::DropSchema { ref schema, .. }) if schema == "catalog"));
    observed.target.schema_exists = false;
    observed.target.owned_schema = None;
    assert!(matches!(
        supabase_diff(1, &schema_resource(), ResourceGoal::Absent, &observed, "u", "d", "a").unwrap(),
        SupabaseDecision::Converged(_)
    ));
}

#[test]
fn applied_migrations_cannot_change() {
    let observed = SupabaseResourceObservation {
        target: SupabaseObservation {
            schema_exists: true,
            owned_schema: Some("catalog".into()),
            migrations: vec![("001".into(), "sha256:old".into())],
            exposed: texts(&["public"]),
            anon_read: texts(&[]),
        },
        body: body(Vec::new()),
        migrations: vec![PreparedMigration { id: "001".into(), checksum: "sha256:new".into(), sql: String::new() }],
    };
    let Err(SupabaseError::Plan(message)) =
        supabase_diff(1, &schema_resource(), ResourceGoal::Present, &observed, "u", "d", "a")
    else {
        panic!("mutated migration refused")
    };
    assert_eq!(
        message,
        "error[supabase.plan.migration-mutated]: migration \"001\" for app/api was applied with sha256:old, but desired declares sha256:new\n  = help: never edit an applied migration ID; append a corrective migration"
    );
}

#[test]
fn schema_bodies_are_checked() {
    let r = schema_resource();
    let good = MigrationRef { id: "001".into(), path: "migrations/001.sql".into(), sha256: sha(b"x") };
    assert!(validate_body(&r, &body(vec![good.clone()])).is_ok());
    let mut wrong_target = body(Vec::new());
    wrong_target.project = "prod".into();
    assert!(matches!(validate_body(&r, &wrong_target), Err(SupabaseError::Plan(m)) if m.contains("supabase.target.unsupported")));
    let mut bad_schema = body(Vec::new());
    bad_schema.schema = "Catalog".into();
    assert!(matches!(validate_body(&r, &bad_schema), Err(SupabaseError::Plan(m)) if m.contains("supabase.schema.invalid")));
    assert!(matches!(
        validate_body(&r, &body(vec![good.clone(), good.clone()])),
        Err(SupabaseError::Plan(m)) if m == "error[supabase.migration.duplicate]: app/api repeats migration ID \"001\""
    ));
    for path in ["/etc/passwd", "../x.sql", "a/../b.sql", "a\\..\\b.sql"] {
        let escaping = MigrationRef { path: path.into(), ..good.clone() };
        assert!(
            matches!(validate_body(&r, &body(vec![escaping])), Err(SupabaseError::Plan(m)) if m.contains("supabase.migration.path")),
            "{path}"
        );
    }
    let dots = MigrationRef { path: "a/..b/c.sql".into(), ..good.clone() };
    assert!(validate_body(&r, &body(vec![dots])).is_ok());
    let short = MigrationRef { sha256: "sha256:abc".into(), ..good.clone() };
    assert!(matches!(validate_body(&r, &body(vec![short])), Err(SupabaseError::Plan(m)) if m.contains("supabase.migration.checksum")));
    assert!(matches!(
        decode_body(&resource("supabase/other", &[]), Ok(body(Vec::new()))),
        Err(SupabaseError::Plan(m)) if m == "error[supabase.kind.unsupported]: app/api has unsupported kind supabase/other@1"
    ));
    assert!(matches!(
        decode_body(&r, Err("missing field `stack`".into())),
        Err(SupabaseError::Plan(m)) if m == "error[supabase.body.invalid]: app/api: missing field `stack`"
    ));
}

#[test]
fn migration_files_must_match_their_checksum_and_be_text() {
    let r = schema_resource();
    let m = MigrationRef { id: "001".into(), path: "migrations/001.sql".into(), sha256: sha(b"select 1;") };
    assert_eq!(prepare_migration(&r, &m, b"select 1;".to_vec()).unwrap().sql, "select 1;");
    assert!(matches!(
        prepare_migration(&r, &m, b"select 2;".to_vec()),
        Err(SupabaseError::Plan(message)) if message.contains("supabase.plan.checksum") && message.contains(&sha(b"select 2;"))
    ));
    let binary = vec![0xff, 0x00];
    let m2 = MigrationRef { sha256: sha(&binary), ..m };
    assert!(matches!(
        prepare_migration(&r, &m2, binary),
        Err(SupabaseError::Plan(message)) if message == "error[supabase.plan.migration-encoding]: migration \"001\" for app/api is not UTF-8"
    ));
}

#[test]
fn sql_quoting_doubles_quotes() {
    assert_eq!(quote_identifier("a\"b"), "\"a\"\"b\"");
    assert_eq!(quote_literal("it's"), "'it''s'");
}

#[test]
fn observation_digest_hashes_the_debug_text() {
    let observed = SupabaseObservation {
        schema_exists: true,
        owned_schema: Some("catalog".into()),
        migrations: vec![("001".into(), "sha256:aa".into())],
        exposed: texts(&["public", "catalog"]),
        anon_read: texts(&[]),
    };
    let text = "exists=true;owned=Some(\"catalog\");migrations={\"001\": \"sha256:aa\"};exposed={\"catalog\", \"public\"};anon={}";
    assert_eq!(observation_digest(&observed), sha(text.as_bytes()));
}
