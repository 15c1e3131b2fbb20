//! The program of the real-controller simulation: per index, a Kubernetes
//! config map, a Cloudflare worker and a Supabase schema, with the worker's
//! URL and the schema's name bound as component outputs.

use vstd::prelude::*;

use crate::evaluation::{
    entries_view, json_array, json_object, json_string, json_text, json_view, lemma_entries_view_index,
    lemma_values_view_index, values_view, EvaluationResource, JsonValue, JsonView, ObservedOutputBinding,
};
use crate::digest::hex_text;
use crate::fmt::{decimal, decimal_text};
use crate::names::{KindVersion, ResourceAddress};

verus! {

/// How many resources of each controller the program emits, and the
/// revision they carry.
#[derive(Clone, Copy, Debug)]
pub struct RealProgram {
    pub revision: u8,
    pub resources_per_controller: u8,
}

/// The id of the `index`th resource in the `namespace` of a controller:
/// sixteen bytes of the namespace, the last replaced by the index.
pub open spec fn fixture_id(namespace: u8, index: u8) -> Seq<u8> {
    Seq::new(16, |i: int| if i == 15 {
        index
    } else {
        namespace
    })
}

fn fixture_id_bytes(namespace: u8, index: u8) -> (id: [u8; 16])
    ensures
        id@ == fixture_id(namespace, index),
{
    let mut id = [namespace; 16];
    id[15] = index;
    assert(id@ =~= fixture_id(namespace, index));
    id
}

/// The config map of index `i`.
pub open spec fn config_map_body(i: u8, revision: u8) -> JsonView {
    JsonView::Object(
        seq![
            ("apiVersion"@, JsonView::Str("v1"@)),
            ("data"@, JsonView::Object(seq![("revision"@, JsonView::Str(decimal(revision as nat)))])),
            ("kind"@, JsonView::Str("ConfigMap"@)),
            ("metadata"@, JsonView::Object(seq![("name"@, JsonView::Str("config-"@ + decimal(i as nat)))])),
        ],
    )
}

/// The artifact digest every worker of a revision runs: thirty-two bytes of
/// the revision, written as `sha256:` and lowercase hexadecimal.
pub open spec fn revision_digest(revision: u8) -> Seq<char> {
    "sha256:"@ + hex_text(Seq::new(32, |k: int| revision))
}

/// The worker of a revision.
pub open spec fn worker_body(revision: u8) -> JsonView {
    JsonView::Object(
        seq![
            ("compatibilityDate"@, JsonView::Str("2026-07-16"@)),
            ("compatibilityFlags"@, JsonView::Array(Seq::empty())),
            ("services"@, JsonView::Object(Seq::empty())),
            (
                "source"@,
                JsonView::Object(
                    seq![
                        ("assets"@, JsonView::Null),
                        (
                            "entry"@,
                            JsonView::Object(
                                seq![
                                    ("digest"@, JsonView::Str(revision_digest(revision))),
                                    ("kind"@, JsonView::Str("cloudflare-worker"@)),
                                ],
                            ),
                        ),
                    ],
                ),
            ),
            ("vars"@, JsonView::Object(seq![("REVISION"@, JsonView::Number(decimal(revision as nat)))])),
        ],
    )
}

/// The schema of index `i`.
pub open spec fn schema_body(i: u8) -> JsonView {
    JsonView::Object(
        seq![
            ("api"@, JsonView::Object(seq![("anonAccess"@, JsonView::Str("none"@)), ("expose"@, JsonView::Bool(false))])),
            ("database"@, JsonView::Str("postgres"@)),
            ("migrations"@, JsonView::Array(Seq::empty())),
            ("project"@, JsonView::Str("henosis-local"@)),
            ("schema"@, JsonView::Str("app_"@ + decimal(i as nat))),
            ("stack"@, JsonView::Str("local"@)),
        ],
    )
}

/// What a fixture resource is: its id, component, kind, name, controller,
/// body (with its compact JSON text) and observed outputs.
pub open spec fn fixture_resource(
    x: EvaluationResource,
    id: Seq<u8>,
    component: Seq<char>,
    kind: Seq<char>,
    name: Seq<char>,
    controller: Seq<char>,
    body: JsonView,
    outputs: Seq<Seq<char>>,
) -> bool {
    &&& x.id@ == id
    &&& x.component@ == component
    &&& x.kind.name@ == kind
    &&& x.kind.version == 1
    &&& x.name@ == name
    &&& x.controller@ == controller
    &&& json_view(x.body) == body
    &&& x.canonical@ == json_text(body)
    &&& x.outputs@.map_values(|o: String| o@) == outputs
}

/// What a fixture binding is: a component output bound to an output of the
/// resource of `kind` named `name`.
pub open spec fn fixture_binding(b: ObservedOutputBinding, output_name: Seq<char>, kind: Seq<char>, name: Seq<char>, output: Seq<char>) -> bool {
    &&& b.name@ == output_name
    &&& b.resource.kind.name@ == kind
    &&& b.resource.kind.version == 1
    &&& b.resource.name@ == name
    &&& b.output@ == output
}

fn text(s: &str) -> (v: JsonValue)
    ensures
        json_view(v) == JsonView::Str(s@),
{
    JsonValue::String(s.to_string())
}

fn named(prefix: &str, i: u8) -> (s: String)
    ensures
        s@ == prefix@ + decimal(i as nat),
{
    let mut s = prefix.to_string();
    let d = decimal_text(i as u64);
    s.append(d.as_str());
    s
}

fn config_map(i: u8, revision: u8) -> (v: JsonValue)
    ensures
        json_view(v) == config_map_body(i, revision),
{
    let mut data: Vec<(String, JsonValue)> = Vec::new();
    data.push(("revision".to_string(), JsonValue::String(decimal_text(revision as u64))));
    let mut metadata: Vec<(String, JsonValue)> = Vec::new();
    metadata.push(("name".to_string(), JsonValue::String(named("config-", i))));
    proof {
        lemma_entries_view_index(data@);
        lemma_entries_view_index(metadata@);
        assert(entries_view(data@) =~= seq![("revision"@, JsonView::Str(decimal(revision as nat)))]);
        assert(entries_view(metadata@) =~= seq![("name"@, JsonView::Str("config-"@ + decimal(i as nat)))]);
    }
    let data = json_object(data);
    let metadata = json_object(metadata);
    let mut e: Vec<(String, JsonValue)> = Vec::new();
    e.push(("apiVersion".to_string(), text("v1")));
    e.push(("data".to_string(), data));
    e.push(("kind".to_string(), text("ConfigMap")));
    e.push(("metadata".to_string(), metadata));
    proof {
        lemma_entries_view_index(e@);
        assert(entries_view(e@) =~= seq![
            ("apiVersion"@, JsonView::Str("v1"@)),
            ("data"@, JsonView::Object(seq![("revision"@, JsonView::Str(decimal(revision as nat)))])),
            ("kind"@, JsonView::Str("ConfigMap"@)),
            ("metadata"@, JsonView::Object(seq![("name"@, JsonView::Str("config-"@ + decimal(i as nat)))])),
        ]);
    }
    json_object(e)
}

fn digest_text(revision: u8) -> (s: String)
    ensures
        s@ == revision_digest(revision),
{
    let mut s = "sha256:".to_string();
    let bytes = [revision; 32];
    let h = crate::digest::hex_encode(&bytes);
    s.append(h.as_str());
    assert(bytes@ =~= Seq::new(32, |k: int| revision));
    s
}

fn worker(revision: u8) -> (v: JsonValue)
    ensures
        json_view(v) == worker_body(revision),
{
    let mut entry: Vec<(String, JsonValue)> = Vec::new();
    entry.push(("digest".to_string(), JsonValue::String(digest_text(revision))));
    entry.push(("kind".to_string(), text("cloudflare-worker")));
    proof {
        lemma_entries_view_index(entry@);
        assert(entries_view(entry@) =~= seq![
            ("digest"@, JsonView::Str(revision_digest(revision))),
            ("kind"@, JsonView::Str("cloudflare-worker"@)),
        ]);
    }
    let entry = json_object(entry);
    let mut source: Vec<(String, JsonValue)> = Vec::new();
    source.push(("assets".to_string(), JsonValue::Null));
    source.push(("entry".to_string(), entry));
    proof {
        lemma_entries_view_index(source@);
        assert(entries_view(source@) =~= seq![
            ("assets"@, JsonView::Null),
            (
                "entry"@,
                JsonView::Object(
                    seq![
                        ("digest"@, JsonView::Str(revision_digest(revision))),
                        ("kind"@, JsonView::Str("cloudflare-worker"@)),
                    ],
                ),
            ),
        ]);
    }
    let source = json_object(source);
    let mut vars: Vec<(String, JsonValue)> = Vec::new();
    vars.push(("REVISION".to_string(), JsonValue::Number(decimal_text(revision as u64))));
    proof {
        lemma_entries_view_index(vars@);
        assert(entries_view(vars@) =~= seq![("REVISION"@, JsonView::Number(decimal(revision as nat)))]);
    }
    let vars = json_object(vars);
    let flags: Vec<JsonValue> = Vec::new();
    let services: Vec<(String, JsonValue)> = Vec::new();
    proof {
        lemma_values_view_index(flags@);
        lemma_entries_view_index(services@);
        assert(values_view(flags@) =~= Seq::<JsonView>::empty());
        assert(entries_view(services@) =~= Seq::<(Seq<char>, JsonView)>::empty());
    }
    let flags = json_array(flags);
    let services = json_object(services);
    let mut e: Vec<(String, JsonValue)> = Vec::new();
    e.push(("compatibilityDate".to_string(), text("2026-07-16")));
    e.push(("compatibilityFlags".to_string(), flags));
    e.push(("services".to_string(), services));
    e.push(("source".to_string(), source));
    e.push(("vars".to_string(), vars));
    proof {
        lemma_entries_view_index(e@);
        let w = worker_body(revision);
        assert(entries_view(e@) =~= w->Object_0);
    }
    json_object(e)
}

fn schema(i: u8) -> (v: JsonValue)
    ensures
        json_view(v) == schema_body(i),
{
    let mut api: Vec<(String, JsonValue)> = Vec::new();
    api.push(("anonAccess".to_string(), text("none")));
    api.push(("expose".to_string(), JsonValue::Bool(false)));
    let migrations: Vec<JsonValue> = Vec::new();
    proof {
        lemma_entries_view_index(api@);
        lemma_values_view_index(migrations@);
        assert(entries_view(api@) =~= seq![("anonAccess"@, JsonView::Str("none"@)), ("expose"@, JsonView::Bool(false))]);
        assert(values_view(migrations@) =~= Seq::<JsonView>::empty());
    }
    let api = json_object(api);
    let migrations = json_array(migrations);
    let mut e: Vec<(String, JsonValue)> = Vec::new();
    e.push(("api".to_string(), api));
    e.push(("database".to_string(), text("postgres")));
    e.push(("migrations".to_string(), migrations));
    e.push(("project".to_string(), text("henosis-local")));
    e.push(("schema".to_string(), JsonValue::String(named("app_", i))));
    e.push(("stack".to_string(), text("local")));
    proof {
        lemma_entries_view_index(e@);
        let w = schema_body(i);
        assert(entries_view(e@) =~= w->Object_0);
    }
    json_object(e)
}

fn fixture(
    component: &str,
    id: [u8; 16],
    kind: &str,
    name: String,
    controller: &str,
    body: JsonValue,
    output: Option<&str>,
) -> (x: EvaluationResource)
    ensures
        fixture_resource(
            x,
            id@,
            component@,
            kind@,
            name@,
            controller@,
            json_view(body),
            match output {
                Some(o) => seq![o@],
                None => Seq::empty(),
            },
        ),
{
    let canonical = json_string(&body);
    let mut outputs: Vec<String> = Vec::new();
    match output {
        Some(o) => outputs.push(o.to_string()),
        None => {},
    }
    let x = EvaluationResource {
        id,
        component: component.to_string(),
        kind: KindVersion { name: kind.to_string(), version: 1 },
        name,
        controller: controller.to_string(),
        body,
        canonical,
        outputs,
    };
    proof {
        match output {
            Some(o) => {
                assert(x.outputs@.map_values(|s: String| s@) =~= seq![o@]);
            },
            None => {
                assert(x.outputs@.map_values(|s: String| s@) =~= Seq::<Seq<char>>::empty());
            },
        }
    }
    x
}

fn binding(output_name: String, kind: &str, name: String, output: &str) -> (b: ObservedOutputBinding)
    ensures
        fixture_binding(b, output_name@, kind@, name@, output@),
{
    ObservedOutputBinding {
        name: output_name,
        resource: ResourceAddress { kind: KindVersion { name: kind.to_string(), version: 1 }, name },
        output: output.to_string(),
    }
}

/// The resources and bindings of the program for `component`: for each
/// index below `resources_per_controller`, in order, the config map
/// `k8s-i`, the worker `worker-i` observing `url`, and the schema
/// `schema-i` observing `schema`; the component outputs `workeriUrl` and
/// `schemai` are bound to them.
pub fn real_resources(component: &str, program: &RealProgram) -> (out: (Vec<EvaluationResource>, Vec<ObservedOutputBinding>))
    ensures
        out.0@.len() == 3 * program.resources_per_controller,
        out.1@.len() == 2 * program.resources_per_controller,
        forall|i: int|
            0 <= i < program.resources_per_controller ==> {
                let n = decimal(i as nat);
                &&& fixture_resource(
                    #[trigger] out.0@[3 * i],
                    fixture_id(10, i as u8),
                    component@,
                    "k8s/object"@,
                    "k8s-"@ + n,
                    "k8s"@,
                    config_map_body(i as u8, program.revision),
                    Seq::empty(),
                )
                &&& fixture_resource(
                    out.0@[3 * i + 1],
                    fixture_id(20, i as u8),
                    component@,
                    "cloudflare/worker"@,
                    "worker-"@ + n,
                    "cloudflare"@,
                    worker_body(program.revision),
                    seq!["url"@],
                )
                &&& fixture_resource(
                    out.0@[3 * i + 2],
                    fixture_id(30, i as u8),
                    component@,
                    "supabase/schema"@,
                    "schema-"@ + n,
                    "supabase"@,
                    schema_body(i as u8),
                    seq!["schema"@],
                )
                &&& fixture_binding(out.1@[2 * i], "worker"@ + n + "Url"@, "cloudflare/worker"@, "worker-"@ + n, "url"@)
                &&& fixture_binding(out.1@[2 * i + 1], "schema"@ + n, "supabase/schema"@, "schema-"@ + n, "schema"@)
            },
{
    let mut resources: Vec<EvaluationResource> = Vec::new();
    let mut bindings: Vec<ObservedOutputBinding> = Vec::new();
    let mut index: u8 = 0;
    while index < program.resources_per_controller
        invariant
            index <= program.resources_per_controller,
            resources@.len() == 3 * index,
            bindings@.len() == 2 * index,
            forall|i: int|
                0 <= i < index ==> {
                    let n = decimal(i as nat);
                    &&& fixture_resource(
                        #[trigger] resources@[3 * i],
                        fixture_id(10, i as u8),
                        component@,
                        "k8s/object"@,
                        "k8s-"@ + n,
                        "k8s"@,
                        config_map_body(i as u8, program.revision),
                        Seq::empty(),
                    )
                    &&& fixture_resource(
                        resources@[3 * i + 1],
                        fixture_id(20, i as u8),
                        component@,
                        "cloudflare/worker"@,
                        "worker-"@ + n,
                        "cloudflare"@,
                        worker_body(program.revision),
                        seq!["url"@],
                    )
                    &&& fixture_resource(
                        resources@[3 * i + 2],
                        fixture_id(30, i as u8),
                        component@,
                        "supabase/schema"@,
                        "schema-"@ + n,
                        "supabase"@,
                        schema_body(i as u8),
                        seq!["schema"@],
                    )
                    &&& fixture_binding(bindings@[2 * i], "worker"@ + n + "Url"@, "cloudflare/worker"@, "worker-"@ + n, "url"@)
                    &&& fixture_binding(bindings@[2 * i + 1], "schema"@ + n, "supabase/schema"@, "schema-"@ + n, "schema"@)
                },
        decreases program.resources_per_controller - index,
    {
        let k8s = fixture(
            component,
            fixture_id_bytes(10, index),
            "k8s/object",
            named("k8s-", index),
            "k8s",
            config_map(index, program.revision),
            None,
        );
        let worker_resource = fixture(
            component,
            fixture_id_bytes(20, index),
            "cloudflare/worker",
            named("worker-", index),
            "cloudflare",
            worker(program.revision),
            Some("url"),
        );
        let schema_resource = fixture(
            component,
            fixture_id_bytes(30, index),
            "supabase/schema",
            named("schema-", index),
            "supabase",
            schema(index),
            Some("schema"),
        );
        let mut worker_output = named("worker", index);
        worker_output.append("Url");
        let worker_binding = binding(worker_output, "cloudflare/worker", named("worker-", index), "url");
        let schema_binding = binding(named("schema", index), "supabase/schema", named("schema-", index), "schema");
        let ghost before_r = resources@;
        let ghost before_b = bindings@;
        resources.push(k8s);
        resources.push(worker_resource);
        resources.push(schema_resource);
        bindings.push(worker_binding);
        bindings.push(schema_binding);
        proof {
            assert forall|i: int| 0 <= i < index implies #[trigger] resources@[3 * i] == before_r[3 * i] && resources@[3 * i + 1]
                == before_r[3 * i + 1] && resources@[3 * i + 2] == before_r[3 * i + 2] && bindings@[2 * i] == before_b[2 * i]
                && bindings@[2 * i + 1] == before_b[2 * i + 1] by {}
        }
        index = index + 1;
    }
    (resources, bindings)
}

} // verus!
