//! Decisions of the local Supabase controller: what one pass does to a
//! schema resource (create it, apply the next migration, reconfigure API
//! exposure, drop it), the shape rules of a schema body, the fencing digest
//! of an observation, and SQL quoting.

use vstd::prelude::*;

use crate::digest::{hex_encode, hex_text, sha256, sha256_digest};
use crate::fmt::{debug_quoted, debug_quoted_text, decimal, decimal_text, utf8_text};
use crate::resource::{collect, collect_outputs, output_pairs, ObservedOutput, Resource, ResourceConvergence, ResourceGoal};
use crate::text::{doubled, has_prefix_at, joined, push_doubled, starts_with, text_equal, trailing_start, trim_trailing};
use crate::textset::{texts, TextSet};

verus! {

/// The desired state of a schema resource.
#[derive(Clone, Debug)]
pub struct SchemaBody {
    pub stack: String,
    pub project: String,
    pub database: String,
    pub schema: String,
    pub migrations: Vec<MigrationRef>,
    pub api: ApiPolicy,
}

/// A migration file and its declared SHA-256 checksum.
#[derive(Clone, Debug)]
pub struct MigrationRef {
    pub id: String,
    pub path: String,
    pub sha256: String,
}

/// Whether the schema is exposed through the REST API, and to whom.
#[derive(Clone, Copy, Debug, PartialEq, Eq, Structural)]
pub struct ApiPolicy {
    pub expose: bool,
    pub anon_access: AnonymousAccess,
}

/// What anonymous callers may do with an exposed schema.
#[derive(Clone, Copy, Debug, PartialEq, Eq, Structural)]
pub enum AnonymousAccess {
    NoAccess,
    Read,
}

/// What the database holds for a schema resource: whether the schema
/// exists, the schema recorded as owned by this graph resource, the applied
/// migration receipts (id and checksum, in id order), the schemas that the
/// REST API exposes and those anonymous callers may read.
#[derive(Debug)]
pub struct SupabaseObservation {
    pub schema_exists: bool,
    pub owned_schema: Option<String>,
    pub migrations: Vec<(String, String)>,
    pub exposed: TextSet,
    pub anon_read: TextSet,
}

/// A migration read from the bundle and checked against its checksum.
#[derive(Clone, Debug)]
pub struct PreparedMigration {
    pub id: String,
    pub checksum: String,
    pub sql: String,
}

/// Everything a pass compares: the database, the desired body and the
/// desired migrations in order.
#[derive(Debug)]
pub struct SupabaseResourceObservation {
    pub target: SupabaseObservation,
    pub body: SchemaBody,
    pub migrations: Vec<PreparedMigration>,
}

/// The one database operation a pass performs.
#[derive(Debug)]
pub enum SupabaseOperation {
    EnsureSchema { graph: u128, resource: u128, schema: String },
    ApplyMigration { graph: u128, resource: u128, schema: String, id: String, checksum: String, sql: String },
    ConfigureApi {
        graph: u128,
        resource: u128,
        schema: String,
        observed_digest: String,
        exposed: TextSet,
        anon_read: TextSet,
    },
    DropSchema { graph: u128, resource: u128, schema: String },
}

/// Why a Supabase pass failed.
#[derive(Clone, Debug)]
pub enum SupabaseError {
    Plan(String),
    Unavailable(String),
    Provider(String),
}

/// The outcome of comparing desired and observed state for one schema.
#[derive(Debug)]
pub enum SupabaseDecision {
    Act(SupabaseOperation),
    Converged(ResourceConvergence),
}

// === SQL quoting ===

/// `value` as a quoted SQL identifier.
pub fn quote_identifier(value: &str) -> (quoted: String)
    ensures
        quoted@ == seq!['"'] + doubled(value@, '"') + seq!['"'],
{
    proof {
        reveal_strlit("\"");
        reveal_strlit("\"\"");
    }
    assert("\""@ =~= seq!['"']);
    assert("\"\""@ =~= seq!['"', '"']);
    let mut out = String::from_str("\"");
    push_doubled(&mut out, value, '"', "\"", "\"\"");
    out.append("\"");
    out
}

/// `value` as a quoted SQL string literal.
pub fn quote_literal(value: &str) -> (quoted: String)
    ensures
        quoted@ == seq!['\''] + doubled(value@, '\'') + seq!['\''],
{
    proof {
        reveal_strlit("'");
        reveal_strlit("''");
    }
    assert("'"@ =~= seq!['\'']);
    assert("''"@ =~= seq!['\'', '\'']);
    let mut out = String::from_str("'");
    push_doubled(&mut out, value, '\'', "'", "''");
    out.append("'");
    out
}

// === API exposure ===

/// The schemas to expose and to open to anonymous reads after a pass
/// toward `goal`: what is observed, with `public` always exposed, without
/// this schema unless it is present and exposed (and anonymously readable
/// when its policy says so).
pub open spec fn desired_api(
    exposed: Set<Seq<char>>,
    anon_read: Set<Seq<char>>,
    schema: Seq<char>,
    policy: ApiPolicy,
    goal: ResourceGoal,
) -> (Set<Seq<char>>, Set<Seq<char>>) {
    let e = exposed.insert("public"@).remove(schema);
    let a = anon_read.remove(schema);
    if goal == ResourceGoal::Present && policy.expose {
        (e.insert(schema), if policy.anon_access == AnonymousAccess::Read { a.insert(schema) } else { a })
    } else {
        (e, a)
    }
}

/// The exposure that a pass toward `goal` wants, as `desired_api` states.
pub fn resource_api(observed: &SupabaseObservation, body: &SchemaBody, goal: ResourceGoal) -> (api: (TextSet, TextSet))
    ensures
        (api.0@, api.1@) == desired_api(observed.exposed@, observed.anon_read@, body.schema@, body.api, goal),
{
    let mut exposed = observed.exposed.copied();
    let mut anon_read = observed.anon_read.copied();
    exposed.insert(String::from_str("public"));
    exposed.remove(body.schema.as_str());
    anon_read.remove(body.schema.as_str());
    if goal == ResourceGoal::Present && body.api.expose {
        exposed.insert(body.schema.clone());
        if body.api.anon_access == AnonymousAccess::Read {
            anon_read.insert(body.schema.clone());
        }
    }
    (exposed, anon_read)
}

// === The fencing digest of an observation ===

/// `Display` of a `bool`.
pub open spec fn bool_text(b: bool) -> Seq<char> {
    if b { "true"@ } else { "false"@ }
}

/// `Debug` of an `Option<String>`.
pub open spec fn debug_option_text(o: Option<Seq<char>>) -> Seq<char> {
    match o {
        Some(s) => "Some("@ + debug_quoted_text(s) + ")"@,
        None => "None"@,
    }
}

/// `Debug` of a map of texts, in key order.
pub open spec fn debug_map_text(entries: Seq<(Seq<char>, Seq<char>)>) -> Seq<char> {
    "{"@ + joined(entries.map_values(|e: (Seq<char>, Seq<char>)| debug_quoted_text(e.0) + ": "@ + debug_quoted_text(e.1)), ", "@)
        + "}"@
}

/// `Debug` of a set of texts, in order.
pub open spec fn debug_set_text(items: Seq<Seq<char>>) -> Seq<char> {
    "{"@ + joined(items.map_values(|x: Seq<char>| debug_quoted_text(x)), ", "@) + "}"@
}

/// The migration receipts as texts.
pub open spec fn receipts_view(m: Seq<(String, String)>) -> Seq<(Seq<char>, Seq<char>)> {
    m.map_values(|e: (String, String)| (e.0@, e.1@))
}

/// The text whose hash fences an observation.
pub open spec fn observation_text(o: SupabaseObservation) -> Seq<char> {
    "exists="@ + bool_text(o.schema_exists) + ";owned="@ + debug_option_text(
        match o.owned_schema {
            Some(s) => Some(s@),
            None => None,
        },
    ) + ";migrations="@ + debug_map_text(receipts_view(o.migrations@)) + ";exposed="@ + debug_set_text(
        o.exposed.ordered(),
    ) + ";anon="@ + debug_set_text(o.anon_read.ordered())
}

/// The fencing digest of an observation: `sha256:` and the hex SHA-256 of
/// its UTF-8 text.
pub open spec fn observation_digest_text(o: SupabaseObservation) -> Seq<char> {
    "sha256:"@ + hex_text(sha256_digest(vstd::utf8::encode_utf8(observation_text(o))))
}

fn push_joined_quoted_pairs(out: &mut String, entries: &Vec<(String, String)>)
    ensures
        final(out)@ == old(out)@ + joined(
            receipts_view(entries@).map_values(|e: (Seq<char>, Seq<char>)| debug_quoted_text(e.0) + ": "@ + debug_quoted_text(e.1)),
            ", "@,
        ),
{
    let ghost start = out@;
    let ghost items = receipts_view(entries@).map_values(
        |e: (Seq<char>, Seq<char>)| debug_quoted_text(e.0) + ": "@ + debug_quoted_text(e.1),
    );
    let n = entries.len();
    let mut i: usize = 0;
    assert(items.take(0) =~= Seq::<Seq<char>>::empty());
    assert(start + joined(items.take(0), ", "@) =~= start);
    while i < n
        invariant
            n == entries@.len(),
            items.len() == n,
            items == receipts_view(entries@).map_values(
                |e: (Seq<char>, Seq<char>)| debug_quoted_text(e.0) + ": "@ + debug_quoted_text(e.1),
            ),
            i <= n,
            out@ == start + joined(items.take(i as int), ", "@),
        decreases n - i,
    {
        let ghost before = out@;
        if i > 0 {
            out.append(", ");
        }
        let k = debug_quoted(entries[i].0.as_str());
        out.append(k.as_str());
        out.append(": ");
        let v = debug_quoted(entries[i].1.as_str());
        out.append(v.as_str());
        proof {
            assert(items.take(i + 1).drop_last() =~= items.take(i as int));
            assert(items.take(i + 1).last() == items[i as int]);
            if i == 0 {
                assert(items.take(1).len() == 1);
            }
        }
        assert(out@ =~= start + joined(items.take(i + 1), ", "@));
        i = i + 1;
    }
    assert(items.take(n as int) =~= items);
}

fn push_joined_quoted(out: &mut String, entries: &Vec<String>)
    ensures
        final(out)@ == old(out)@ + joined(
            crate::textset::texts(entries@).map_values(|x: Seq<char>| debug_quoted_text(x)),
            ", "@,
        ),
{
    let ghost start = out@;
    let ghost items = crate::textset::texts(entries@).map_values(|x: Seq<char>| debug_quoted_text(x));
    let n = entries.len();
    let mut i: usize = 0;
    assert(items.take(0) =~= Seq::<Seq<char>>::empty());
    assert(start + joined(items.take(0), ", "@) =~= start);
    while i < n
        invariant
            n == entries@.len(),
            items.len() == n,
            items == crate::textset::texts(entries@).map_values(|x: Seq<char>| debug_quoted_text(x)),
            i <= n,
            out@ == start + joined(items.take(i as int), ", "@),
        decreases n - i,
    {
        if i > 0 {
            out.append(", ");
        }
        let q = debug_quoted(entries[i].as_str());
        out.append(q.as_str());
        proof {
            assert(items.take(i + 1).drop_last() =~= items.take(i as int));
            assert(items.take(i + 1).last() == items[i as int]);
            if i == 0 {
                assert(items.take(1).len() == 1);
            }
        }
        assert(out@ =~= start + joined(items.take(i + 1), ", "@));
        i = i + 1;
    }
    assert(items.take(n as int) =~= items);
}

fn option_text(o: &Option<String>) -> (text: String)
    ensures
        text@ == debug_option_text(
            match *o {
                Some(s) => Some(s@),
                None => None,
            },
        ),
{
    match o {
        Some(s) => {
            let mut t = String::from_str("Some(");
            let q = debug_quoted(s.as_str());
            t.append(q.as_str());
            t.append(")");
            t
        },
        None => String::from_str("None"),
    }
}

fn map_text(entries: &Vec<(String, String)>) -> (text: String)
    ensures
        text@ == debug_map_text(receipts_view(entries@)),
{
    let mut t = String::from_str("{");
    push_joined_quoted_pairs(&mut t, entries);
    t.append("}");
    t
}

fn set_text(set: &TextSet) -> (text: String)
    ensures
        text@ == debug_set_text(set.ordered()),
{
    let mut t = String::from_str("{");
    push_joined_quoted(&mut t, set.items());
    t.append("}");
    t
}

/// The fencing digest of an observation, which an operation carries so
/// that the target can refuse it when the database changed in between.
pub fn observation_digest(observed: &SupabaseObservation) -> (digest: String)
    ensures
        digest@ == observation_digest_text(*observed),
{
    let b = if observed.schema_exists { String::from_str("true") } else { String::from_str("false") };
    let owned = option_text(&observed.owned_schema);
    let receipts = map_text(&observed.migrations);
    let exposed = set_text(&observed.exposed);
    let anon = set_text(&observed.anon_read);
    let mut text = String::from_str("exists=");
    text.append(b.as_str());
    text.append(";owned=");
    text.append(owned.as_str());
    text.append(";migrations=");
    text.append(receipts.as_str());
    text.append(";exposed=");
    text.append(exposed.as_str());
    text.append(";anon=");
    text.append(anon.as_str());
    assert(text@ == observation_text(*observed));
    let hash = sha256(text.as_str().as_bytes());
    let mut digest = String::from_str("sha256:");
    let hex = hex_encode(&hash);
    digest.append(hex.as_str());
    digest
}


// === One reconcile step ===

/// The checksum recorded for migration `id`: that of the first receipt
/// carrying it.
pub open spec fn receipt_of(receipts: Seq<(Seq<char>, Seq<char>)>, id: Seq<char>) -> Option<Seq<char>>
    decreases receipts.len(),
{
    if receipts.len() == 0 {
        None
    } else if receipts[0].0 == id {
        Some(receipts[0].1)
    } else {
        receipt_of(receipts.drop_first(), id)
    }
}

/// The desired migrations as (id, checksum) pairs.
pub open spec fn desired_view(m: Seq<PreparedMigration>) -> Seq<(Seq<char>, Seq<char>)> {
    m.map_values(|p: PreparedMigration| (p.id@, p.checksum@))
}

/// Migration `m` is recorded as applied with its own checksum.
pub open spec fn applied(receipts: Seq<(Seq<char>, Seq<char>)>, m: (Seq<char>, Seq<char>)) -> bool {
    receipt_of(receipts, m.0) == Some(m.1)
}

/// `i` is the first desired migration that is not applied as declared.
pub open spec fn first_pending(receipts: Seq<(Seq<char>, Seq<char>)>, desired: Seq<(Seq<char>, Seq<char>)>, i: int) -> bool {
    &&& 0 <= i < desired.len()
    &&& !applied(receipts, desired[i])
    &&& forall|k: int| 0 <= k < i ==> applied(receipts, #[trigger] desired[k])
}

/// Every desired migration is applied as declared.
pub open spec fn all_applied(receipts: Seq<(Seq<char>, Seq<char>)>, desired: Seq<(Seq<char>, Seq<char>)>) -> bool {
    forall|k: int| 0 <= k < desired.len() ==> applied(receipts, #[trigger] desired[k])
}

/// The schema is recorded as owned by this graph resource.
pub open spec fn expected_owner(o: SupabaseResourceObservation) -> bool {
    o.target.owned_schema matches Some(s) && s@ == o.body.schema@
}

/// The exposure a pass toward `goal` wants for `o`.
pub open spec fn wanted_api(o: SupabaseResourceObservation, goal: ResourceGoal) -> (Set<Seq<char>>, Set<Seq<char>>) {
    desired_api(o.target.exposed@, o.target.anon_read@, o.body.schema@, o.body.api, goal)
}

/// The observed exposure differs from what the pass wants.
pub open spec fn api_differs(o: SupabaseResourceObservation, goal: ResourceGoal) -> bool {
    o.target.exposed@ != wanted_api(o, goal).0 || o.target.anon_read@ != wanted_api(o, goal).1
}

/// `op` reconfigures exposure for `o` as the pass toward `goal` wants,
/// fenced by the digest of what was observed.
pub open spec fn configures(op: SupabaseOperation, graph: u128, resource: u128, o: SupabaseResourceObservation, goal: ResourceGoal) -> bool {
    op matches SupabaseOperation::ConfigureApi { graph: g, resource: r, schema, observed_digest, exposed, anon_read }
        && g == graph && r == resource && schema@ == o.body.schema@ && observed_digest@ == observation_digest_text(o.target)
        && exposed@ == wanted_api(o, goal).0 && anon_read@ == wanted_api(o, goal).1
}

/// `op` applies migration `m` to the schema.
pub open spec fn applies(op: SupabaseOperation, graph: u128, resource: u128, schema: Seq<char>, m: PreparedMigration) -> bool {
    op matches SupabaseOperation::ApplyMigration { graph: g, resource: r, schema: s, id, checksum, sql }
        && g == graph && r == resource && s@ == schema && id@ == m.id@ && checksum@ == m.checksum@ && sql@ == m.sql@
}

/// The refusal to touch a schema that this resource does not own.
pub open spec fn ownership_refusal(schema: Seq<char>, path: Seq<char>) -> Seq<char> {
    "refusing to mutate schema "@ + debug_quoted_text(schema) + " for "@ + path
        + " because no matching graph/resource ownership receipt exists"@
}

/// The refusal to run a migration whose applied checksum differs.
pub open spec fn mutated_migration(id: Seq<char>, path: Seq<char>, applied_checksum: Seq<char>, declared: Seq<char>) -> Seq<char> {
    "error[supabase.plan.migration-mutated]: migration "@ + debug_quoted_text(id) + " for "@ + path
        + " was applied with "@ + applied_checksum + ", but desired declares "@ + declared
        + "\n  = help: never edit an applied migration ID; append a corrective migration"@
}

/// The outputs a converged schema can report, in order, given the target's
/// API URL and secret references.
pub open spec fn schema_candidates(body: SchemaBody, api_url: Seq<char>, database_url_ref: Seq<char>, anon_key_ref: Seq<char>) -> Seq<(Seq<char>, Seq<char>)> {
    let base = trim_trailing(api_url, '/');
    seq![
        ("project"@, body.project@),
        ("database"@, body.database@),
        ("schema"@, body.schema@),
        ("apiUrl"@, base),
        ("restUrl"@, base + "/rest/v1"@),
        ("databaseUrlRef"@, database_url_ref),
        ("anonKeyRef"@, anon_key_ref),
    ]
}

/// The decision for a converged schema: its declared outputs among the
/// candidates and the observation digest as evidence, or the output error.
pub open spec fn schema_converged(
    r: Result<SupabaseDecision, SupabaseError>,
    resource: Resource,
    cands: Seq<(Seq<char>, Seq<char>)>,
    evidence: Seq<char>,
) -> bool {
    match collect_outputs(resource, cands) {
        Ok(s) => r matches Ok(SupabaseDecision::Converged(c)) && output_pairs(c.outputs@) == s && c.evidence@
            == vstd::utf8::encode_utf8(evidence) && forall|k: int|
            0 <= k < c.outputs@.len() ==> (#[trigger] c.outputs@[k]).resource == resource.id,
        Err(m) => r matches Err(SupabaseError::Plan(e)) && e@ == m,
    }
}

fn find_receipt(receipts: &Vec<(String, String)>, id: &str) -> (found: Option<usize>)
    ensures
        found matches Some(i) ==> i < receipts@.len() && receipt_of(receipts_view(receipts@), id@) == Some(
            receipts@[i as int].1@,
        ),
        found is None ==> receipt_of(receipts_view(receipts@), id@) is None,
{
    let ghost all = receipts_view(receipts@);
    let n = receipts.len();
    let mut i: usize = 0;
    assert(all.skip(0) =~= all);
    while i < n
        invariant
            n == receipts@.len(),
            all == receipts_view(receipts@),
            i <= n,
            receipt_of(all, id@) == receipt_of(all.skip(i as int), id@),
        decreases n - i,
    {
        assert(all.skip(i as int)[0] == (receipts@[i as int].0@, receipts@[i as int].1@));
        if text_equal(receipts[i].0.as_str(), id) {
            return Some(i);
        }
        assert(all.skip(i as int).drop_first() =~= all.skip(i + 1));
        i = i + 1;
    }
    None
}

fn configure_api(graph: u128, resource: &Resource, observed: &SupabaseResourceObservation, goal: ResourceGoal) -> (op: SupabaseOperation)
    ensures
        configures(op, graph, resource.id, *observed, goal),
{
    let (exposed, anon_read) = resource_api(&observed.target, &observed.body, goal);
    SupabaseOperation::ConfigureApi {
        graph,
        resource: resource.id,
        schema: observed.body.schema.clone(),
        observed_digest: observation_digest(&observed.target),
        exposed,
        anon_read,
    }
}

fn schema_outputs(
    resource: &Resource,
    observed: &SupabaseResourceObservation,
    api_url: &str,
    database_url_ref: &str,
    anon_key_ref: &str,
) -> (r: Result<SupabaseDecision, SupabaseError>)
    ensures
        schema_converged(
            r,
            *resource,
            schema_candidates(observed.body, api_url@, database_url_ref@, anon_key_ref@),
            observation_digest_text(observed.target),
        ),
{
    let end = trailing_start(api_url, '/');
    let base = api_url.substring_char(0, end);
    let mut rest = base.to_string();
    rest.append("/rest/v1");
    let names = vec!["project", "database", "schema", "apiUrl", "restUrl", "databaseUrlRef", "anonKeyRef"];
    let values = vec![
        observed.body.project.clone(),
        observed.body.database.clone(),
        observed.body.schema.clone(),
        base.to_string(),
        rest,
        database_url_ref.to_string(),
        anon_key_ref.to_string(),
    ];
    assert(Seq::new(7, |i: int| (names@[i]@, values@[i]@)) =~= schema_candidates(
        observed.body,
        api_url@,
        database_url_ref@,
        anon_key_ref@,
    ));
    match collect(resource, &names, &values) {
        Ok(outputs) => {
            let digest = observation_digest(&observed.target);
            Ok(SupabaseDecision::Converged(ResourceConvergence { outputs, evidence: digest.as_str().as_bytes_vec() }))
        },
        Err(m) => Err(SupabaseError::Plan(m)),
    }
}

/// Decides the one step a pass takes for a schema toward `goal`: refuse a
/// schema that exists without this resource's ownership receipt; for
/// absence first withdraw API exposure, then drop the owned schema; for
/// presence create the schema, then apply the first migration not yet
/// applied (refusing one applied with another checksum), then configure
/// exposure, and converge with the declared outputs.
#[verifier::rlimit(60)]
pub fn diff(
    graph: u128,
    resource: &Resource,
    goal: ResourceGoal,
    observed: &SupabaseResourceObservation,
    api_url: &str,
    database_url_ref: &str,
    anon_key_ref: &str,
) -> (r: Result<SupabaseDecision, SupabaseError>)
    ensures
        observed.target.schema_exists && !expected_owner(*observed) ==> (r matches Err(SupabaseError::Provider(m))
            && m@ == ownership_refusal(observed.body.schema@, resource.path@)),
        !(observed.target.schema_exists && !expected_owner(*observed)) && goal == ResourceGoal::Absent ==> {
            &&& api_differs(*observed, goal) ==> (r matches Ok(SupabaseDecision::Act(op)) && configures(op, graph, resource.id, *observed, goal))
            &&& !api_differs(*observed, goal) && expected_owner(*observed) ==> (r matches Ok(SupabaseDecision::Act(op))
                && op matches SupabaseOperation::DropSchema { graph: g, resource: id, schema } && g == graph && id == resource.id
                && schema@ == observed.body.schema@)
            &&& !api_differs(*observed, goal) && !expected_owner(*observed) ==> (r matches Ok(SupabaseDecision::Converged(c))
                && c.outputs@.len() == 0 && c.evidence@.len() == 0)
        },
        goal == ResourceGoal::Present && !observed.target.schema_exists ==> (r matches Ok(SupabaseDecision::Act(op))
            && op matches SupabaseOperation::EnsureSchema { graph: g, resource: id, schema } && g == graph && id == resource.id
            && schema@ == observed.body.schema@),
        goal == ResourceGoal::Present && observed.target.schema_exists && expected_owner(*observed) ==> {
            let receipts = receipts_view(observed.target.migrations@);
            let desired = desired_view(observed.migrations@);
            &&& forall|i: int| first_pending(receipts, desired, i) ==> match receipt_of(receipts, desired[i].0) {
                None => r matches Ok(SupabaseDecision::Act(op)) && applies(op, graph, resource.id, observed.body.schema@, observed.migrations@[i]),
                Some(c) => r matches Err(SupabaseError::Plan(m)) && m@ == mutated_migration(desired[i].0, resource.path@, c, desired[i].1),
            }
            &&& all_applied(receipts, desired) && api_differs(*observed, goal) ==> (r matches Ok(SupabaseDecision::Act(op))
                && configures(op, graph, resource.id, *observed, goal))
            &&& all_applied(receipts, desired) && !api_differs(*observed, goal) ==> schema_converged(
                r,
                *resource,
                schema_candidates(observed.body, api_url@, database_url_ref@, anon_key_ref@),
                observation_digest_text(observed.target),
            )
        },
{
    let owner = match &observed.target.owned_schema {
        Some(s) => text_equal(s.as_str(), observed.body.schema.as_str()),
        None => false,
    };
    if observed.target.schema_exists && !owner {
        let mut m = String::from_str("refusing to mutate schema ");
        let q = debug_quoted(observed.body.schema.as_str());
        m.append(q.as_str());
        m.append(" for ");
        m.append(resource.path.as_str());
        m.append(" because no matching graph/resource ownership receipt exists");
        return Err(SupabaseError::Provider(m));
    }
    let (desired_exposed, desired_anon) = resource_api(&observed.target, &observed.body, goal);
    let differs = !observed.target.exposed.same(&desired_exposed) || !observed.target.anon_read.same(&desired_anon);
    if let ResourceGoal::Absent = goal {
        if differs {
            return Ok(SupabaseDecision::Act(configure_api(graph, resource, observed, goal)));
        }
        if owner {
            return Ok(SupabaseDecision::Act(
                SupabaseOperation::DropSchema { graph, resource: resource.id, schema: observed.body.schema.clone() },
            ));
        }
        return Ok(SupabaseDecision::Converged(ResourceConvergence { outputs: Vec::new(), evidence: Vec::new() }));
    }
    if !observed.target.schema_exists {
        return Ok(SupabaseDecision::Act(
            SupabaseOperation::EnsureSchema { graph, resource: resource.id, schema: observed.body.schema.clone() },
        ));
    }
    let ghost receipts = receipts_view(observed.target.migrations@);
    let ghost desired = desired_view(observed.migrations@);
    let n = observed.migrations.len();
    let mut i: usize = 0;
    while i < n
        invariant
            n == observed.migrations@.len(),
            receipts == receipts_view(observed.target.migrations@),
            desired == desired_view(observed.migrations@),
            i <= n,
            forall|k: int| 0 <= k < i ==> applied(receipts, #[trigger] desired[k]),
            goal == ResourceGoal::Present,
            observed.target.schema_exists,
            expected_owner(*observed),
        decreases n - i,
    {
        let m = &observed.migrations[i];
        assert(desired[i as int] == (m.id@, m.checksum@));
        match find_receipt(&observed.target.migrations, m.id.as_str()) {
            Some(j) => {
                let applied_checksum = &observed.target.migrations[j].1;
                if !text_equal(applied_checksum.as_str(), m.checksum.as_str()) {
                    proof {
                        assert(first_pending(receipts, desired, i as int));
                        assert forall|x: int| first_pending(receipts, desired, x) implies x == i by {
                            if x < i {
                            } else if x > i {
                                assert(applied(receipts, desired[i as int]));
                            }
                        }
                    }
                    let mut msg = String::from_str("error[supabase.plan.migration-mutated]: migration ");
                    let q = debug_quoted(m.id.as_str());
                    msg.append(q.as_str());
                    msg.append(" for ");
                    msg.append(resource.path.as_str());
                    msg.append(" was applied with ");
                    msg.append(applied_checksum.as_str());
                    msg.append(", but desired declares ");
                    msg.append(m.checksum.as_str());
                    msg.append("\n  = help: never edit an applied migration ID; append a corrective migration");
                    return Err(SupabaseError::Plan(msg));
                }
            },
            None => {
                proof {
                    assert(first_pending(receipts, desired, i as int));
                    assert forall|x: int| first_pending(receipts, desired, x) implies x == i by {
                        if x < i {
                        } else if x > i {
                            assert(applied(receipts, desired[i as int]));
                        }
                    }
                }
                return Ok(SupabaseDecision::Act(
                    SupabaseOperation::ApplyMigration {
                        graph,
                        resource: resource.id,
                        schema: observed.body.schema.clone(),
                        id: m.id.clone(),
                        checksum: m.checksum.clone(),
                        sql: m.sql.clone(),
                    },
                ));
            },
        }
        i = i + 1;
    }
    proof {
        assert forall|x: int| !first_pending(receipts, desired, x) by {
            if 0 <= x < desired.len() {
                assert(applied(receipts, desired[x]));
            }
        }
    }
    if differs {
        return Ok(SupabaseDecision::Act(configure_api(graph, resource, observed, goal)));
    }
    schema_outputs(resource, observed, api_url, database_url_ref, anon_key_ref)
}


// === Errors as text ===

impl SupabaseError {
    /// The error as its `Display` shows it.
    pub fn message(&self) -> (text: String)
        ensures
            text@ == match *self {
                SupabaseError::Plan(m) => m@,
                SupabaseError::Unavailable(m) => "local Supabase unavailable: "@ + m@,
                SupabaseError::Provider(m) => "local Supabase rejected the operation: "@ + m@,
            },
    {
        match self {
            SupabaseError::Plan(m) => m.clone(),
            SupabaseError::Unavailable(m) => {
                let mut t = String::from_str("local Supabase unavailable: ");
                t.append(m.as_str());
                t
            },
            SupabaseError::Provider(m) => {
                let mut t = String::from_str("local Supabase rejected the operation: ");
                t.append(m.as_str());
                t
            },
        }
    }
}

// === Shape rules of a schema body ===

/// A character a schema name may hold.
pub open spec fn schema_char(c: char) -> bool {
    ('a' <= c && c <= 'z') || ('0' <= c && c <= '9') || c == '_'
}

/// A non-empty name of lowercase letters, digits and underscores.
pub open spec fn schema_name_ok(s: Seq<char>) -> bool {
    s.len() > 0 && forall|k: int| 0 <= k < s.len() ==> schema_char(#[trigger] s[k])
}

/// A path separator.
pub open spec fn path_separator(c: char) -> bool {
    c == '/' || c == '\\'
}

/// A `..` segment of `p` starts at `i`.
pub open spec fn parent_segment_at(p: Seq<char>, i: int) -> bool {
    &&& 0 <= i && i + 2 <= p.len()
    &&& p[i] == '.' && p[i + 1] == '.'
    &&& i == 0 || path_separator(p[i - 1])
    &&& i + 2 == p.len() || path_separator(p[i + 2])
}

/// `p`, split at `/` and `\`, has a `..` segment.
pub open spec fn climbs(p: Seq<char>) -> bool {
    exists|i: int| parent_segment_at(p, i)
}

/// Why migration `i` of `ms` is refused (a repeated id, an absolute or
/// climbing path, a malformed checksum), checked in that order; none when
/// it is acceptable.
pub open spec fn migration_fault(ms: Seq<MigrationRef>, i: int, path: Seq<char>) -> Option<Seq<char>> {
    let m = ms[i];
    if exists|k: int| 0 <= k < i && (#[trigger] ms[k]).id@ == m.id@ {
        Some("error[supabase.migration.duplicate]: "@ + path + " repeats migration ID "@ + debug_quoted_text(m.id@))
    } else if (m.path@.len() > 0 && m.path@[0] == '/') || climbs(m.path@) {
        Some("error[supabase.migration.path]: "@ + path + " migration "@ + debug_quoted_text(m.id@)
            + " path must be repository-relative without parent traversal"@)
    } else if !starts_with(m.sha256@, "sha256:"@) || vstd::utf8::encode_utf8(m.sha256@).len() != 71 {
        Some("error[supabase.migration.checksum]: "@ + path + " migration "@ + debug_quoted_text(m.id@)
            + " needs a lowercase SHA-256 digest"@)
    } else {
        None
    }
}

/// `i` is the first refused migration.
pub open spec fn first_fault(ms: Seq<MigrationRef>, i: int, path: Seq<char>) -> bool {
    &&& 0 <= i < ms.len()
    &&& migration_fault(ms, i, path) is Some
    &&& forall|k: int| 0 <= k < i ==> (#[trigger] migration_fault(ms, k, path)) is None
}

/// The body targets the one local project and database.
pub open spec fn local_target(body: SchemaBody) -> bool {
    body.stack@ == "local"@ && body.project@ == "henosis-local"@ && body.database@ == "postgres"@
}

fn has_parent_segment(p: &str) -> (found: bool)
    ensures
        found == climbs(p@),
{
    let n = p.unicode_len();
    if n < 2 {
        return false;
    }
    let mut i: usize = 0;
    while i < n - 1
        invariant
            n == p@.len(),
            n >= 2,
            i <= n - 1,
            forall|k: int| 0 <= k < i ==> !parent_segment_at(p@, k),
        decreases n - i,
    {
        if p.get_char(i) == '.' && p.get_char(i + 1) == '.' {
            let before = i == 0 || p.get_char(i - 1) == '/' || p.get_char(i - 1) == '\\';
            let after = i + 2 == n || p.get_char(i + 2) == '/' || p.get_char(i + 2) == '\\';
            if before && after {
                assert(parent_segment_at(p@, i as int));
                return true;
            }
        }
        i = i + 1;
    }
    assert forall|k: int| !parent_segment_at(p@, k) by {
        if 0 <= k < i {
        }
    }
    false
}

fn repeats_earlier(ms: &Vec<MigrationRef>, i: usize) -> (found: bool)
    requires
        i < ms@.len(),
    ensures
        found == exists|k: int| 0 <= k < i && (#[trigger] ms@[k]).id@ == ms@[i as int].id@,
{
    let mut k: usize = 0;
    while k < i
        invariant
            i < ms@.len(),
            k <= i,
            forall|j: int| 0 <= j < k ==> (#[trigger] ms@[j]).id@ != ms@[i as int].id@,
        decreases i - k,
    {
        if text_equal(ms[k].id.as_str(), ms[i].id.as_str()) {
            return true;
        }
        k = k + 1;
    }
    false
}

fn check_migration(ms: &Vec<MigrationRef>, i: usize, path: &str) -> (fault: Option<String>)
    requires
        i < ms@.len(),
    ensures
        match migration_fault(ms@, i as int, path@) {
            Some(m) => fault matches Some(f) && f@ == m,
            None => fault is None,
        },
{
    let m = &ms[i];
    if repeats_earlier(ms, i) {
        let mut t = String::from_str("error[supabase.migration.duplicate]: ");
        t.append(path);
        t.append(" repeats migration ID ");
        let q = debug_quoted(m.id.as_str());
        t.append(q.as_str());
        return Some(t);
    }
    let absolute = m.path.unicode_len() > 0 && m.path.as_str().get_char(0) == '/';
    if absolute || has_parent_segment(m.path.as_str()) {
        let mut t = String::from_str("error[supabase.migration.path]: ");
        t.append(path);
        t.append(" migration ");
        let q = debug_quoted(m.id.as_str());
        t.append(q.as_str());
        t.append(" path must be repository-relative without parent traversal");
        return Some(t);
    }
    if !has_prefix_at(m.sha256.as_str(), 0, "sha256:") || m.sha256.as_str().as_bytes().len() != 71 {
        assert(m.sha256@.skip(0) =~= m.sha256@);
        let mut t = String::from_str("error[supabase.migration.checksum]: ");
        t.append(path);
        t.append(" migration ");
        let q = debug_quoted(m.id.as_str());
        t.append(q.as_str());
        t.append(" needs a lowercase SHA-256 digest");
        return Some(t);
    }
    assert(m.sha256@.skip(0) =~= m.sha256@);
    None
}

fn schema_name_valid(s: &str) -> (ok: bool)
    ensures
        ok == schema_name_ok(s@),
{
    let n = s.unicode_len();
    if n == 0 {
        return false;
    }
    let mut i: usize = 0;
    while i < n
        invariant
            n == s@.len(),
            i <= n,
            forall|k: int| 0 <= k < i ==> schema_char(#[trigger] s@[k]),
        decreases n - i,
    {
        let c = s.get_char(i);
        if !(('a' <= c && c <= 'z') || ('0' <= c && c <= '9') || c == '_') {
            assert(!schema_char(s@[i as int]));
            return false;
        }
        i = i + 1;
    }
    true
}

/// Checks the shape of a schema body: the local target, the schema name,
/// and each migration in order (as `migration_fault` states); the error is
/// the first rule broken, as `validate_body_result` states.
pub fn validate_body(resource: &Resource, body: &SchemaBody) -> (r: Result<(), SupabaseError>)
    ensures
        match validate_body_result(*resource, *body) {
            Ok(()) => r is Ok,
            Err(m) => r matches Err(SupabaseError::Plan(t)) && t@ == m,
        },
{
    if !text_equal(body.stack.as_str(), "local") || !text_equal(body.project.as_str(), "henosis-local") || !text_equal(
        body.database.as_str(),
        "postgres",
    ) {
        let mut t = String::from_str("error[supabase.target.unsupported]: ");
        t.append(resource.path.as_str());
        t.append(" must target local/henosis-local/postgres");
        return Err(SupabaseError::Plan(t));
    }
    if !schema_name_valid(body.schema.as_str()) {
        let mut t = String::from_str("error[supabase.schema.invalid]: ");
        t.append(resource.path.as_str());
        t.append(" schema ");
        let q = debug_quoted(body.schema.as_str());
        t.append(q.as_str());
        t.append(" must contain lowercase letters, digits, or underscores");
        return Err(SupabaseError::Plan(t));
    }
    let n = body.migrations.len();
    let mut i: usize = 0;
    while i < n
        invariant
            n == body.migrations@.len(),
            i <= n,
            forall|k: int| 0 <= k < i ==> (#[trigger] migration_fault(body.migrations@, k, resource.path@)) is None,
            local_target(*body),
            schema_name_ok(body.schema@),
        decreases n - i,
    {
        match check_migration(&body.migrations, i, resource.path.as_str()) {
            Some(t) => {
                proof {
                    assert(first_fault(body.migrations@, i as int, resource.path@));
                    assert forall|x: int| first_fault(body.migrations@, x, resource.path@) implies x == i by {
                        if x < i {
                        } else if x > i {
                            assert(migration_fault(body.migrations@, i as int, resource.path@) is None);
                        }
                    }
                }
                return Err(SupabaseError::Plan(t));
            },
            None => {},
        }
        i = i + 1;
    }
    assert forall|x: int| !first_fault(body.migrations@, x, resource.path@) by {
        if 0 <= x < n {
            assert(migration_fault(body.migrations@, x, resource.path@) is None);
        }
    }
    Ok(())
}

/// The kind of a schema resource.
pub open spec fn schema_kind(resource: Resource) -> bool {
    resource.kind_name@ == "supabase/schema"@ && resource.kind_version == 1
}

/// Checks a resource's kind, then its body as parsed from JSON (the parse
/// error's text when parsing failed), then the body's shape.
pub fn decode_body(resource: &Resource, parsed: Result<SchemaBody, String>) -> (r: Result<SchemaBody, SupabaseError>)
    ensures
        !schema_kind(*resource) ==> (r matches Err(SupabaseError::Plan(m)) && m@ == "error[supabase.kind.unsupported]: "@
            + resource.path@ + " has unsupported kind "@ + resource.kind_name@ + "@"@ + decimal(resource.kind_version as nat)),
        schema_kind(*resource) ==> match parsed {
            Err(e) => r matches Err(SupabaseError::Plan(m)) && m@ == "error[supabase.body.invalid]: "@ + resource.path@ + ": "@ + e@,
            Ok(body) => match validate_body_result(*resource, body) {
                Ok(()) => r matches Ok(b) && b == body,
                Err(m) => r matches Err(SupabaseError::Plan(t)) && t@ == m,
            },
        },
{
    if !text_equal(resource.kind_name.as_str(), "supabase/schema") || resource.kind_version != 1 {
        let mut t = String::from_str("error[supabase.kind.unsupported]: ");
        t.append(resource.path.as_str());
        t.append(" has unsupported kind ");
        t.append(resource.kind_name.as_str());
        t.append("@");
        let v = decimal_text(resource.kind_version as u64);
        t.append(v.as_str());
        return Err(SupabaseError::Plan(t));
    }
    match parsed {
        Err(e) => {
            let mut t = String::from_str("error[supabase.body.invalid]: ");
            t.append(resource.path.as_str());
            t.append(": ");
            t.append(e.as_str());
            Err(SupabaseError::Plan(t))
        },
        Ok(body) => {
            match validate_body(resource, &body) {
                Ok(()) => Ok(body),
                Err(e) => Err(e),
            }
        },
    }
}

/// What `validate_body` answers, as one value: the message of the first
/// rule that the body breaks.
pub open spec fn validate_body_result(resource: Resource, body: SchemaBody) -> Result<(), Seq<char>> {
    if !local_target(body) {
        Err("error[supabase.target.unsupported]: "@ + resource.path@ + " must target local/henosis-local/postgres"@)
    } else if !schema_name_ok(body.schema@) {
        Err("error[supabase.schema.invalid]: "@ + resource.path@ + " schema "@ + debug_quoted_text(body.schema@)
            + " must contain lowercase letters, digits, or underscores"@)
    } else if exists|i: int| first_fault(body.migrations@, i, resource.path@) {
        Err(migration_fault(body.migrations@, choose|i: int| first_fault(body.migrations@, i, resource.path@), resource.path@)->0)
    } else {
        Ok(())
    }
}


// === Migrations read from the bundle ===

/// The declared-checksum form of the SHA-256 of `bytes`.
pub open spec fn checksum_text(bytes: Seq<u8>) -> Seq<char> {
    "sha256:"@ + hex_text(sha256_digest(bytes))
}

/// Checks the bytes of a migration file against its declared checksum and
/// decodes them as UTF-8 SQL.
pub fn prepare_migration(resource: &Resource, migration: &MigrationRef, bytes: Vec<u8>) -> (r: Result<PreparedMigration, SupabaseError>)
    ensures
        checksum_text(bytes@) != migration.sha256@ ==> (r matches Err(SupabaseError::Plan(m)) && m@
            == "error[supabase.plan.checksum]: migration "@ + debug_quoted_text(migration.id@) + " for "@ + resource.path@
            + " declares "@ + migration.sha256@ + ", but file "@ + migration.path@ + " hashes to "@ + checksum_text(bytes@)),
        checksum_text(bytes@) == migration.sha256@ && (forall|c: Seq<char>| vstd::utf8::encode_utf8(c) != bytes@) ==> (r matches Err(
            SupabaseError::Plan(m),
        ) && m@ == "error[supabase.plan.migration-encoding]: migration "@ + debug_quoted_text(migration.id@) + " for "@
            + resource.path@ + " is not UTF-8"@),
        checksum_text(bytes@) == migration.sha256@ && (exists|c: Seq<char>| vstd::utf8::encode_utf8(c) == bytes@) ==> (r matches Ok(p)
            && p.id@ == migration.id@ && p.checksum@ == migration.sha256@ && vstd::utf8::encode_utf8(p.sql@) == bytes@),
{
    let hash = sha256(bytes.as_slice());
    let hex = hex_encode(&hash);
    let mut actual = String::from_str("sha256:");
    actual.append(hex.as_str());
    if !text_equal(actual.as_str(), migration.sha256.as_str()) {
        let mut m = String::from_str("error[supabase.plan.checksum]: migration ");
        let q = debug_quoted(migration.id.as_str());
        m.append(q.as_str());
        m.append(" for ");
        m.append(resource.path.as_str());
        m.append(" declares ");
        m.append(migration.sha256.as_str());
        m.append(", but file ");
        m.append(migration.path.as_str());
        m.append(" hashes to ");
        m.append(actual.as_str());
        return Err(SupabaseError::Plan(m));
    }
    match utf8_text(bytes) {
        Some(sql) => Ok(PreparedMigration { id: migration.id.clone(), checksum: migration.sha256.clone(), sql }),
        None => {
            let mut m = String::from_str("error[supabase.plan.migration-encoding]: migration ");
            let q = debug_quoted(migration.id.as_str());
            m.append(q.as_str());
            m.append(" for ");
            m.append(resource.path.as_str());
            m.append(" is not UTF-8");
            Err(SupabaseError::Plan(m))
        },
    }
}

// === The local Postgres/PostgREST target ===

/// How to reach the local database and what its API reports: host, port,
/// user, database, the file holding the password, the API URL and the
/// references under which the database URL and anonymous key are found.
#[derive(Clone, Debug)]
pub struct LocalSupabaseConfig {
    pub host: String,
    pub port: u16,
    pub user: String,
    pub database: String,
    pub password_file: String,
    pub api_url: String,
    pub database_url_ref: String,
    pub anon_key_ref: String,
}

/// The local Supabase target, configured once.
#[derive(Clone, Debug)]
pub struct LocalSupabaseTarget {
    config: LocalSupabaseConfig,
}

impl LocalSupabaseTarget {
    /// The configuration this target was made with.
    pub closed spec fn config_view(&self) -> LocalSupabaseConfig {
        self.config
    }

    /// A target for `config`.
    pub fn new(config: LocalSupabaseConfig) -> (target: Self)
        ensures
            target.config_view() == config,
    {
        LocalSupabaseTarget { config }
    }

    /// The configuration this target was made with.
    pub fn config(&self) -> (config: &LocalSupabaseConfig)
        ensures
            *config == self.config_view(),
    {
        &self.config
    }

    /// The API URL reported as an output.
    pub fn api_url(&self) -> (url: &str)
        ensures
            url@ == self.config_view().api_url@,
    {
        self.config.api_url.as_str()
    }

    /// The reference under which the database URL is found.
    pub fn database_url_ref(&self) -> (reference: &str)
        ensures
            reference@ == self.config_view().database_url_ref@,
    {
        self.config.database_url_ref.as_str()
    }

    /// The reference under which the anonymous key is found.
    pub fn anon_key_ref(&self) -> (reference: &str)
        ensures
            reference@ == self.config_view().anon_key_ref@,
    {
        self.config.anon_key_ref.as_str()
    }
}

// === Applying an operation in the database ===

/// `value` as a quoted SQL identifier.
pub open spec fn quoted_identifier(value: Seq<char>) -> Seq<char> {
    seq!['"'] + doubled(value, '"') + seq!['"']
}

/// `value` as a quoted SQL string literal.
pub open spec fn quoted_literal(value: Seq<char>) -> Seq<char> {
    seq!['\''] + doubled(value, '\'') + seq!['\'']
}

/// One step of applying an operation inside the target's transaction.
#[derive(Debug, PartialEq, Eq)]
pub enum SqlStep {
    /// Statements run as one batch.
    Batch(String),
    /// A statement whose first two parameters are the graph and resource
    /// ids, followed by text parameters.
    Record { statement: String, graph: u128, resource: u128, values: Vec<String> },
}

/// A step as plain values.
pub enum SqlStepView {
    Batch(Seq<char>),
    Record(Seq<char>, u128, u128, Seq<Seq<char>>),
}

/// A step as plain values.
pub open spec fn step_view(s: SqlStep) -> SqlStepView {
    match s {
        SqlStep::Batch(t) => SqlStepView::Batch(t@),
        SqlStep::Record { statement, graph, resource, values } => SqlStepView::Record(
            statement@,
            graph,
            resource,
            values@.map_values(|v: String| v@),
        ),
    }
}

/// Steps as plain values.
pub open spec fn steps_view(s: Seq<SqlStep>) -> Seq<SqlStepView> {
    s.map_values(|x: SqlStep| step_view(x))
}

/// The batch that opens a non-public exposed schema to anonymous reads, or
/// closes it.
pub open spec fn anon_batch(schema: Seq<char>, readable: bool) -> Seq<char> {
    let q = quoted_identifier(schema);
    if readable {
        "grant usage on schema "@ + q + "; grant select on all tables in schema "@ + q
            + " to anon; alter default privileges in schema "@ + q + " grant select on tables to anon;"@
    } else {
        "revoke select on all tables in schema "@ + q + " from anon; revoke usage on schema "@ + q
            + " from anon; alter default privileges in schema "@ + q + " revoke select on tables from anon;"@
    }
}

/// The anonymous-read batches of the exposed schemas `exposed` (ascending)
/// other than `public`, in order.
pub open spec fn anon_batches(exposed: Seq<Seq<char>>, anon_read: Set<Seq<char>>) -> Seq<Seq<char>>
    decreases exposed.len(),
{
    if exposed.len() == 0 {
        Seq::empty()
    } else {
        let before = anon_batches(exposed.drop_last(), anon_read);
        let s = exposed.last();
        if s == "public"@ {
            before
        } else {
            before.push(anon_batch(s, anon_read.contains(s)))
        }
    }
}

/// The batches that configure API exposure: the exposed schemas for the
/// REST server, each non-public exposed schema's anonymous reads, and the
/// server's reload.
pub open spec fn api_batches(exposed: Seq<Seq<char>>, anon_read: Set<Seq<char>>) -> Seq<Seq<char>> {
    seq!["alter role postgres set pgrst.db_schemas = "@ + quoted_literal(joined(exposed, ","@)) + ";"@]
        + anon_batches(exposed, anon_read)
        + seq!["notify pgrst, 'reload config'; notify pgrst, 'reload schema';"@]
}

/// The steps that apply `op` once it is fenced: create and record a schema,
/// run and record a migration in the schema's search path, configure API
/// exposure, or drop a schema and forget its records.
pub open spec fn operation_steps_of(op: SupabaseOperation) -> Seq<SqlStepView> {
    match op {
        SupabaseOperation::EnsureSchema { graph, resource, schema } => seq![
            SqlStepView::Batch(
                "create schema "@ + quoted_identifier(schema@) + "; revoke all on schema "@ + quoted_identifier(schema@)
                    + " from public;"@,
            ),
            SqlStepView::Record(
                "insert into henosis_controller.owned_schemas (graph_id, resource_id, schema_name) values ($1, $2, $3) on conflict (graph_id, resource_id) do update set schema_name = excluded.schema_name"@,
                graph,
                resource,
                seq![schema@],
            ),
        ],
        SupabaseOperation::ApplyMigration { graph, resource, schema, id, checksum, sql } => seq![
            SqlStepView::Batch("set local search_path = "@ + quoted_identifier(schema@) + ", public, extensions;"@),
            SqlStepView::Batch(sql@),
            SqlStepView::Record(
                "insert into henosis_controller.migration_receipts (graph_id, resource_id, migration_id, checksum) values ($1, $2, $3, $4)"@,
                graph,
                resource,
                seq![id@, checksum@],
            ),
        ],
        SupabaseOperation::ConfigureApi { exposed, anon_read, .. } => api_batches(exposed.ordered(), anon_read@).map_values(
            |b: Seq<char>| SqlStepView::Batch(b),
        ),
        SupabaseOperation::DropSchema { graph, resource, schema } => seq![
            SqlStepView::Batch("drop schema "@ + quoted_identifier(schema@) + " cascade;"@),
            SqlStepView::Record(
                "delete from henosis_controller.migration_receipts where graph_id = $1 and resource_id = $2"@,
                graph,
                resource,
                Seq::empty(),
            ),
            SqlStepView::Record(
                "delete from henosis_controller.owned_schemas where graph_id = $1 and resource_id = $2"@,
                graph,
                resource,
                Seq::empty(),
            ),
        ],
    }
}

/// The graph, resource and schema that `op` is about, which the target
/// observes afresh to fence the operation.
pub fn operation_identity(op: &SupabaseOperation) -> (id: (u128, u128, &str))
    ensures
        (id.0, id.1, id.2@) == match *op {
            SupabaseOperation::EnsureSchema { graph, resource, schema } => (graph, resource, schema@),
            SupabaseOperation::ApplyMigration { graph, resource, schema, .. } => (graph, resource, schema@),
            SupabaseOperation::ConfigureApi { graph, resource, schema, .. } => (graph, resource, schema@),
            SupabaseOperation::DropSchema { graph, resource, schema } => (graph, resource, schema@),
        },
{
    match op {
        SupabaseOperation::EnsureSchema { graph, resource, schema } => (*graph, *resource, schema.as_str()),
        SupabaseOperation::ApplyMigration { graph, resource, schema, .. } => (*graph, *resource, schema.as_str()),
        SupabaseOperation::ConfigureApi { graph, resource, schema, .. } => (*graph, *resource, schema.as_str()),
        SupabaseOperation::DropSchema { graph, resource, schema } => (*graph, *resource, schema.as_str()),
    }
}

/// Refuses an operation whose fencing digest no longer matches a fresh
/// observation of the target.
pub fn check_fence(fresh: &str, observed: &str) -> (r: Result<(), SupabaseError>)
    ensures
        r is Ok <==> fresh@ == observed@,
        r matches Err(e) ==> (e matches SupabaseError::Unavailable(m) && m@
            == "target changed after observation; retry from fresh state"@),
{
    if text_equal(fresh, observed) {
        Ok(())
    } else {
        Err(SupabaseError::Unavailable(String::from_str("target changed after observation; retry from fresh state")))
    }
}

fn join_schemas(items: &Vec<String>) -> (text: String)
    ensures
        text@ == joined(texts(items@), ","@),
{
    let mut out = String::new();
    let n = items.len();
    let mut i: usize = 0;
    while i < n
        invariant
            n == items@.len(),
            i <= n,
            out@ == joined(texts(items@).take(i as int), ","@),
        decreases n - i,
    {
        proof {
            assert(texts(items@).take(i + 1).drop_last() =~= texts(items@).take(i as int));
            assert(texts(items@).take(i + 1).last() == items@[i as int]@);
        }
        if i > 0 {
            out.append(",");
        } else {
            assert(Seq::<char>::empty() + items@[0]@ =~= items@[0]@);
        }
        out.append(items[i].as_str());
        i = i + 1;
    }
    assert(texts(items@).take(n as int) =~= texts(items@));
    out
}

fn anon_batch_text(schema: &str, readable: bool) -> (text: String)
    ensures
        text@ == anon_batch(schema@, readable),
{
    let q = quote_identifier(schema);
    let mut t = if readable {
        String::from_str("grant usage on schema ")
    } else {
        String::from_str("revoke select on all tables in schema ")
    };
    t.append(q.as_str());
    if readable {
        t.append("; grant select on all tables in schema ");
        t.append(q.as_str());
        t.append(" to anon; alter default privileges in schema ");
        t.append(q.as_str());
        t.append(" grant select on tables to anon;");
    } else {
        t.append(" from anon; revoke usage on schema ");
        t.append(q.as_str());
        t.append(" from anon; alter default privileges in schema ");
        t.append(q.as_str());
        t.append(" revoke select on tables from anon;");
    }
    t
}

/// The batches that configure API exposure, as `api_batches` states.
pub fn api_steps(exposed: &TextSet, anon_read: &TextSet) -> (batches: Vec<String>)
    ensures
        texts(batches@) == api_batches(exposed.ordered(), anon_read@),
{
    let items = exposed.items();
    let joined_schemas = join_schemas(items);
    let mut first = String::from_str("alter role postgres set pgrst.db_schemas = ");
    let lit = quote_literal(joined_schemas.as_str());
    first.append(lit.as_str());
    first.append(";");
    let ghost first_text = first@;
    assert(first_text == "alter role postgres set pgrst.db_schemas = "@ + quoted_literal(joined(exposed.ordered(), ","@)) + ";"@);
    let mut out: Vec<String> = Vec::new();
    out.push(first);
    let ghost head = texts(out@);
    assert(head =~= seq![first_text]);
    let n = items.len();
    let mut i: usize = 0;
    while i < n
        invariant
            n == items@.len(),
            texts(items@) == exposed.ordered(),
            i <= n,
            head.len() == 1,
            head == seq!["alter role postgres set pgrst.db_schemas = "@ + quoted_literal(joined(exposed.ordered(), ","@)) + ";"@],
            texts(out@) == head + anon_batches(texts(items@).take(i as int), anon_read@),
        decreases n - i,
    {
        proof {
            assert(texts(items@).take(i + 1).drop_last() =~= texts(items@).take(i as int));
            assert(texts(items@).take(i + 1).last() == items@[i as int]@);
        }
        proof {
            reveal_strlit("public");
        }
        let is_public = text_equal(items[i].as_str(), "public");
        if !is_public {
            let readable = anon_read.contains(items[i].as_str());
            let b = anon_batch_text(items[i].as_str(), readable);
            let ghost before = out@;
            out.push(b);
            assert(texts(out@) =~= texts(before).push(anon_batch(items@[i as int]@, readable)));
        }
        i = i + 1;
    }
    assert(texts(items@).take(n as int) =~= texts(items@));
    let ghost middle = texts(out@);
    let last = String::from_str("notify pgrst, 'reload config'; notify pgrst, 'reload schema';");
    let ghost last_text = last@;
    out.push(last);
    assert(texts(out@) =~= middle.push(last_text));
    assert(texts(out@) =~= api_batches(exposed.ordered(), anon_read@));
    out
}

/// The steps that apply `op` once it is fenced, as `operation_steps_of`
/// states.
pub fn operation_steps(op: &SupabaseOperation) -> (steps: Vec<SqlStep>)
    ensures
        steps_view(steps@) == operation_steps_of(*op),
{
    match op {
        SupabaseOperation::EnsureSchema { graph, resource, schema } => {
            let q = quote_identifier(schema.as_str());
            let mut b = String::from_str("create schema ");
            b.append(q.as_str());
            b.append("; revoke all on schema ");
            b.append(q.as_str());
            b.append(" from public;");
            let mut values: Vec<String> = Vec::new();
            values.push(schema.clone());
            let record = SqlStep::Record {
                statement: String::from_str(
                    "insert into henosis_controller.owned_schemas (graph_id, resource_id, schema_name) values ($1, $2, $3) on conflict (graph_id, resource_id) do update set schema_name = excluded.schema_name",
                ),
                graph: *graph,
                resource: *resource,
                values,
            };
            let first = SqlStep::Batch(b);
            let ghost v0 = step_view(first);
            let ghost v1 = step_view(record);
            assert(v1 == operation_steps_of(*op)[1]) by {
                assert(values@.map_values(|v: String| v@) =~= seq![schema@]);
            }
            assert(v0 == operation_steps_of(*op)[0]);
            let mut steps: Vec<SqlStep> = Vec::new();
            steps.push(first);
            steps.push(record);
            assert(steps_view(steps@) =~= seq![v0, v1]);
            assert(steps_view(steps@) =~= operation_steps_of(*op));
            steps
        },
        SupabaseOperation::ApplyMigration { graph, resource, schema, id, checksum, sql } => {
            let q = quote_identifier(schema.as_str());
            let mut b = String::from_str("set local search_path = ");
            b.append(q.as_str());
            b.append(", public, extensions;");
            let mut values: Vec<String> = Vec::new();
            values.push(id.clone());
            values.push(checksum.clone());
            let record = SqlStep::Record {
                statement: String::from_str(
                    "insert into henosis_controller.migration_receipts (graph_id, resource_id, migration_id, checksum) values ($1, $2, $3, $4)",
                ),
                graph: *graph,
                resource: *resource,
                values,
            };
            let first = SqlStep::Batch(b);
            let second = SqlStep::Batch(sql.clone());
            let ghost v0 = step_view(first);
            let ghost v1 = step_view(second);
            let ghost v2 = step_view(record);
            assert(v2 == operation_steps_of(*op)[2]) by {
                assert(values@.map_values(|v: String| v@) =~= seq![id@, checksum@]);
            }
            assert(v0 == operation_steps_of(*op)[0]);
            assert(v1 == operation_steps_of(*op)[1]);
            let mut steps: Vec<SqlStep> = Vec::new();
            steps.push(first);
            steps.push(second);
            steps.push(record);
            assert(steps_view(steps@) =~= seq![v0, v1, v2]);
            assert(steps_view(steps@) =~= operation_steps_of(*op));
            steps
        },
        SupabaseOperation::ConfigureApi { exposed, anon_read, .. } => {
            let batches = api_steps(exposed, anon_read);
            let mut steps: Vec<SqlStep> = Vec::new();
            let n = batches.len();
            let mut i: usize = 0;
            while i < n
                invariant
                    n == batches@.len(),
                    i <= n,
                    steps_view(steps@) == texts(batches@).take(i as int).map_values(|b: Seq<char>| SqlStepView::Batch(b)),
                decreases n - i,
            {
                let ghost before = steps@;
                let step = SqlStep::Batch(batches[i].clone());
                let ghost sv = step_view(step);
                assert(sv == SqlStepView::Batch(texts(batches@)[i as int]));
                steps.push(step);
                assert(steps_view(steps@) =~= steps_view(before).push(sv));
                assert(steps_view(steps@) =~= texts(batches@).take(i + 1).map_values(|b: Seq<char>| SqlStepView::Batch(b)));
                i = i + 1;
            }
            assert(texts(batches@).take(n as int) =~= texts(batches@));
            assert(steps_view(steps@) =~= operation_steps_of(*op));
            steps
        },
        SupabaseOperation::DropSchema { graph, resource, schema } => {
            let q = quote_identifier(schema.as_str());
            let mut b = String::from_str("drop schema ");
            b.append(q.as_str());
            b.append(" cascade;");
            let receipts = SqlStep::Record {
                statement: String::from_str(
                    "delete from henosis_controller.migration_receipts where graph_id = $1 and resource_id = $2",
                ),
                graph: *graph,
                resource: *resource,
                values: Vec::new(),
            };
            let owned = SqlStep::Record {
                statement: String::from_str(
                    "delete from henosis_controller.owned_schemas where graph_id = $1 and resource_id = $2",
                ),
                graph: *graph,
                resource: *resource,
                values: Vec::new(),
            };
            let first = SqlStep::Batch(b);
            let ghost v0 = step_view(first);
            let ghost v1 = step_view(receipts);
            let ghost v2 = step_view(owned);
            assert(v1 == operation_steps_of(*op)[1]) by {
                assert(Seq::<String>::empty().map_values(|v: String| v@) =~= Seq::<Seq<char>>::empty());
            }
            assert(v2 == operation_steps_of(*op)[2]) by {
                assert(Seq::<String>::empty().map_values(|v: String| v@) =~= Seq::<Seq<char>>::empty());
            }
            assert(v0 == operation_steps_of(*op)[0]);
            let mut steps: Vec<SqlStep> = Vec::new();
            steps.push(first);
            steps.push(receipts);
            steps.push(owned);
            assert(steps_view(steps@) =~= seq![v0, v1, v2]);
            assert(steps_view(steps@) =~= operation_steps_of(*op));
            steps
        },
    }
}

} // verus!

verus! {

/// Where the digest that fences an operation comes from.
#[derive(Debug)]
pub enum FenceSource {
    /// A fresh observation of the schema, taken just before applying.
    Observe { graph: u128, resource: u128, schema: String },
    /// The digest the operation carries from the observation it was decided on.
    Carried(String),
}

/// The fence of the act step: an API configuration is fenced by the digest
/// it carries, which the decision observed; every other operation by a
/// fresh observation of its schema.
pub fn fence_source(operation: &SupabaseOperation) -> (f: FenceSource)
    ensures
        match *operation {
            SupabaseOperation::ConfigureApi { observed_digest, .. } => f matches FenceSource::Carried(d) && d@
                == observed_digest@,
            SupabaseOperation::EnsureSchema { graph, resource, schema }
            | SupabaseOperation::DropSchema { graph, resource, schema }
            | SupabaseOperation::ApplyMigration { graph, resource, schema, .. } => f matches FenceSource::Observe {
                graph: g,
                resource: r,
                schema: s,
            } && g == graph && r == resource && s@ == schema@,
        },
{
    match operation {
        SupabaseOperation::ConfigureApi { observed_digest, .. } => FenceSource::Carried(observed_digest.clone()),
        SupabaseOperation::EnsureSchema { graph, resource, schema }
        | SupabaseOperation::DropSchema { graph, resource, schema }
        | SupabaseOperation::ApplyMigration { graph, resource, schema, .. } => FenceSource::Observe {
            graph: *graph,
            resource: *resource,
            schema: schema.clone(),
        },
    }
}

} // verus!

verus! {

/// Applying a migration runs, within the schema's search path, the
/// migration's SQL and then records its receipt: the last step inserts into
/// the migration receipts with `$1`, `$2` the graph and resource and `$3`,
/// `$4` the migration's id and its checksum, in that order, so a later
/// observation finds the migration under its id with its checksum.
pub proof fn law_migration_receipt_records_id_and_checksum(op: SupabaseOperation)
    requires
        op is ApplyMigration,
    ensures
        ({
            let steps = operation_steps_of(op);
            &&& steps.len() == 3
            &&& steps[1] == SqlStepView::Batch(op->ApplyMigration_sql@)
            &&& steps[2] matches SqlStepView::Record(statement, graph, resource, values) && {
                &&& statement
                    == "insert into henosis_controller.migration_receipts (graph_id, resource_id, migration_id, checksum) values ($1, $2, $3, $4)"@
                &&& graph == op->ApplyMigration_graph
                &&& resource == op->ApplyMigration_resource
                &&& values.len() == 2
                &&& values[0] == op->ApplyMigration_id@
                &&& values[1] == op->ApplyMigration_checksum@
            }
        }),
{
}

/// Creating a schema records it as owned by its graph and resource under
/// its name, and dropping it forgets both its receipts and its ownership,
/// for that graph and resource only.
pub proof fn law_schema_ownership_is_recorded_and_forgotten(op: SupabaseOperation)
    ensures
        op matches SupabaseOperation::EnsureSchema { graph, resource, schema } ==> operation_steps_of(op).last()
            == SqlStepView::Record(
            "insert into henosis_controller.owned_schemas (graph_id, resource_id, schema_name) values ($1, $2, $3) on conflict (graph_id, resource_id) do update set schema_name = excluded.schema_name"@,
            graph,
            resource,
            seq![schema@],
        ),
        op matches SupabaseOperation::DropSchema { graph, resource, .. } ==> {
            let steps = operation_steps_of(op);
            &&& steps.len() == 3
            &&& steps[1] == SqlStepView::Record(
                "delete from henosis_controller.migration_receipts where graph_id = $1 and resource_id = $2"@,
                graph,
                resource,
                Seq::empty(),
            )
            &&& steps[2] == SqlStepView::Record(
                "delete from henosis_controller.owned_schemas where graph_id = $1 and resource_id = $2"@,
                graph,
                resource,
                Seq::empty(),
            )
        },
{
}

} // verus!

verus! {

/// API exposure after a pass: `public` stays exposed whatever else happens
/// (unless it is itself the schema being withdrawn); every other schema
/// keeps its exposure and anonymous reads as observed; and this schema is
/// exposed exactly when the pass is toward presence with a policy that
/// exposes it, and anonymously readable exactly when that policy also
/// grants anonymous reads.
pub proof fn law_api_exposure(
    exposed: Set<Seq<char>>,
    anon_read: Set<Seq<char>>,
    schema: Seq<char>,
    policy: ApiPolicy,
    goal: ResourceGoal,
    other: Seq<char>,
)
    requires
        other != schema,
    ensures
        ({
            let (e, a) = desired_api(exposed, anon_read, schema, policy, goal);
            &&& schema != "public"@ ==> e.contains("public"@)
            &&& other != "public"@ ==> (e.contains(other) <==> exposed.contains(other))
            &&& a.contains(other) <==> anon_read.contains(other)
            &&& e.contains(schema) <==> (goal == ResourceGoal::Present && policy.expose)
            &&& a.contains(schema) <==> (goal == ResourceGoal::Present && policy.expose && policy.anon_access
                == AnonymousAccess::Read)
        }),
{
}

/// SQL quoting doubles the quote character and leaves every other
/// character as it is: text without the quote is unchanged, a lone quote
/// becomes two, and quoting distributes over concatenation; the quoted form
/// is the doubled text between two quotes.
pub proof fn law_sql_quoting(a: Seq<char>, b: Seq<char>, c: char)
    ensures
        (forall|i: int| 0 <= i < a.len() ==> a[i] != c) ==> doubled(a, c) == a,
        doubled(seq![c], c) == seq![c, c],
        doubled(a + b, c) == doubled(a, c) + doubled(b, c),
        quoted_identifier(a) == seq!['"'] + doubled(a, '"') + seq!['"'],
        quoted_literal(a) == seq!['\''] + doubled(a, '\'') + seq!['\''],
    decreases a.len(),
{
    crate::text::lemma_doubled_append(a, b, c);
    if (forall|i: int| 0 <= i < a.len() ==> a[i] != c) && a.len() > 0 {
        law_sql_quoting(a.drop_first(), b, c);
        assert(forall|i: int| 0 <= i < a.drop_first().len() ==> a.drop_first()[i] == a[i + 1]);
        assert(a =~= seq![a[0]] + a.drop_first());
    }
    assert(seq![c].drop_first() =~= Seq::<char>::empty());
    assert(doubled(seq![c], c) =~= seq![c, c] + doubled(Seq::<char>::empty(), c));
    assert(seq![c, c] + doubled(Seq::<char>::empty(), c) =~= seq![c, c]);
}

/// Recording a migration's receipt makes it count as applied: after the
/// receipt that applying migration `op` inserts is added to receipts that
/// held none for its id, the migration is found under its id with its
/// checksum.
pub proof fn law_recorded_receipt_marks_applied(op: SupabaseOperation, receipts: Seq<(Seq<char>, Seq<char>)>)
    requires
        op is ApplyMigration,
        receipt_of(receipts, op->ApplyMigration_id@) is None,
    ensures
        operation_steps_of(op)[2] matches SqlStepView::Record(_, _, _, values) && applied(
            receipts.push((values[0], values[1])),
            (op->ApplyMigration_id@, op->ApplyMigration_checksum@),
        ),
{
    law_migration_receipt_records_id_and_checksum(op);
    lemma_receipt_of_push(receipts, op->ApplyMigration_id@, op->ApplyMigration_checksum@);
}

proof fn lemma_receipt_of_push(receipts: Seq<(Seq<char>, Seq<char>)>, id: Seq<char>, checksum: Seq<char>)
    requires
        receipt_of(receipts, id) is None,
    ensures
        receipt_of(receipts.push((id, checksum)), id) == Some(checksum),
    decreases receipts.len(),
{
    if receipts.len() > 0 {
        assert(receipts.push((id, checksum)).drop_first() =~= receipts.drop_first().push((id, checksum)));
        lemma_receipt_of_push(receipts.drop_first(), id, checksum);
    }
}

} // verus!

verus! {

/// Configuring API exposure first sets the REST server's schemas to the
/// exposed ones, joined by commas as one quoted literal, and last reloads
/// the server; between them, each exposed schema other than `public` gets
/// one batch that grants anonymous reads when it is anonymously readable
/// and revokes them otherwise, and nothing else.
pub proof fn law_api_configuration(exposed: Seq<Seq<char>>, anon_read: Set<Seq<char>>, s: Seq<char>, b: Seq<char>)
    ensures
        api_batches(exposed, anon_read)[0] == "alter role postgres set pgrst.db_schemas = "@ + quoted_literal(
            joined(exposed, ","@),
        ) + ";"@,
        api_batches(exposed, anon_read).last() == "notify pgrst, 'reload config'; notify pgrst, 'reload schema';"@,
        exposed.contains(s) && s != "public"@ ==> anon_batches(exposed, anon_read).contains(anon_batch(s, anon_read.contains(s))),
        anon_batches(exposed, anon_read).contains(b) ==> exists|i: int|
            0 <= i < exposed.len() && exposed[i] != "public"@ && b == anon_batch(#[trigger] exposed[i], anon_read.contains(exposed[i])),
        anon_batch(s, true) == "grant usage on schema "@ + quoted_identifier(s) + "; grant select on all tables in schema "@
            + quoted_identifier(s) + " to anon; alter default privileges in schema "@ + quoted_identifier(s)
            + " grant select on tables to anon;"@,
        anon_batch(s, false) == "revoke select on all tables in schema "@ + quoted_identifier(s) + " from anon; revoke usage on schema "@
            + quoted_identifier(s) + " from anon; alter default privileges in schema "@ + quoted_identifier(s)
            + " revoke select on tables from anon;"@,
{
    lemma_anon_batches(exposed, anon_read, s, b);
    let first = seq!["alter role postgres set pgrst.db_schemas = "@ + quoted_literal(joined(exposed, ","@)) + ";"@];
    let last = seq!["notify pgrst, 'reload config'; notify pgrst, 'reload schema';"@];
    let all = first + anon_batches(exposed, anon_read) + last;
    assert(all[0] == first[0]);
    assert(all.last() == last[0]);
}

proof fn lemma_anon_batches(exposed: Seq<Seq<char>>, anon_read: Set<Seq<char>>, s: Seq<char>, b: Seq<char>)
    ensures
        exposed.contains(s) && s != "public"@ ==> anon_batches(exposed, anon_read).contains(anon_batch(s, anon_read.contains(s))),
        anon_batches(exposed, anon_read).contains(b) ==> exists|i: int|
            0 <= i < exposed.len() && exposed[i] != "public"@ && b == anon_batch(#[trigger] exposed[i], anon_read.contains(exposed[i])),
    decreases exposed.len(),
{
    if exposed.len() > 0 {
        let front = exposed.drop_last();
        lemma_anon_batches(front, anon_read, s, b);
        let before = anon_batches(front, anon_read);
        let last = exposed.last();
        let mine = anon_batch(last, anon_read.contains(last));
        if exposed.contains(s) && s != "public"@ {
            let i = choose|i: int| 0 <= i < exposed.len() && exposed[i] == s;
            if i < front.len() {
                assert(front[i] == s);
                let k = choose|k: int| 0 <= k < before.len() && before[k] == anon_batch(s, anon_read.contains(s));
                if last != "public"@ {
                    assert(before.push(mine)[k] == before[k]);
                }
            } else {
                assert(before.push(mine)[before.len() as int] == mine);
            }
        }
        if anon_batches(exposed, anon_read).contains(b) {
            let k = choose|k: int| 0 <= k < anon_batches(exposed, anon_read).len() && anon_batches(exposed, anon_read)[k] == b;
            if k < before.len() {
                assert(anon_batches(exposed, anon_read)[k] == before[k]);
                let i = choose|i: int|
                    0 <= i < front.len() && front[i] != "public"@ && b == anon_batch(#[trigger] front[i], anon_read.contains(front[i]));
                assert(exposed[i] == front[i]);
            } else {
                assert(exposed[exposed.len() - 1] == last);
            }
        }
    }
}

} // verus!

verus! {

/// A migration is refused when it repeats an earlier migration's id, when
/// its path is absolute or climbs out through a `..` segment, or when its
/// checksum is not in the `sha256:` form; one that breaks none of these is
/// accepted. A path holding a `..` segment between separators climbs.
pub proof fn law_migration_rules(ms: Seq<MigrationRef>, i: int, path: Seq<char>, k: int, a: Seq<char>, b: Seq<char>)
    requires
        0 <= i < ms.len(),
    ensures
        0 <= k < i && ms[k].id@ == ms[i].id@ ==> migration_fault(ms, i, path) is Some,
        ms[i].path@.len() > 0 && ms[i].path@[0] == '/' ==> migration_fault(ms, i, path) is Some,
        climbs(ms[i].path@) ==> migration_fault(ms, i, path) is Some,
        !starts_with(ms[i].sha256@, "sha256:"@) ==> migration_fault(ms, i, path) is Some,
        (forall|j: int| 0 <= j < i ==> (#[trigger] ms[j]).id@ != ms[i].id@) && !(ms[i].path@.len() > 0 && ms[i].path@[0]
            == '/') && !climbs(ms[i].path@) && starts_with(ms[i].sha256@, "sha256:"@) && vstd::utf8::encode_utf8(
            ms[i].sha256@,
        ).len() == 71 ==> migration_fault(ms, i, path) is None,
        climbs(a + seq!['/', '.', '.', '/'] + b),
        climbs(seq!['.', '.', '/'] + b),
{
    if 0 <= k < i && ms[k].id@ == ms[i].id@ {
        assert(ms[k].id@ == ms[i].id@);
    }
    let p = a + seq!['/', '.', '.', '/'] + b;
    let n = a.len() as int;
    assert(p[n + 1] == '.' && p[n + 2] == '.' && p[n] == '/' && p[n + 3] == '/');
    assert(parent_segment_at(p, n + 1));
    let q = seq!['.', '.', '/'] + b;
    assert(q[0] == '.' && q[1] == '.' && q[2] == '/');
    assert(parent_segment_at(q, 0));
}

} // verus!

verus! {

/// A converged schema reports, in order, its project, database and schema
/// as declared, the API URL without trailing slashes, the REST URL under
/// it at `/rest/v1`, and the two secret references as configured.
pub proof fn law_schema_outputs(body: SchemaBody, api_url: Seq<char>, database_url_ref: Seq<char>, anon_key_ref: Seq<char>)
    ensures
        ({
            let c = schema_candidates(body, api_url, database_url_ref, anon_key_ref);
            &&& c.len() == 7
            &&& c[0] == ("project"@, body.project@)
            &&& c[1] == ("database"@, body.database@)
            &&& c[2] == ("schema"@, body.schema@)
            &&& c[3].0 == "apiUrl"@
            &&& c[4] == ("restUrl"@, c[3].1 + "/rest/v1"@)
            &&& c[5] == ("databaseUrlRef"@, database_url_ref)
            &&& c[6] == ("anonKeyRef"@, anon_key_ref)
            &&& api_url.take(c[3].1.len() as int) == c[3].1
            &&& c[3].1.len() > 0 ==> c[3].1.last() != '/'
            &&& forall|k: int| c[3].1.len() <= k < api_url.len() ==> api_url[k] == '/'
        }),
{
    lemma_trim_trailing_prefix(api_url, '/');
}

proof fn lemma_trim_trailing_prefix(s: Seq<char>, c: char)
    ensures
        s.take(trim_trailing(s, c).len() as int) == trim_trailing(s, c),
        trim_trailing(s, c).len() <= s.len(),
        trim_trailing(s, c).len() > 0 ==> trim_trailing(s, c).last() != c,
        forall|k: int| trim_trailing(s, c).len() <= k < s.len() ==> s[k] == c,
    decreases s.len(),
{
    if s.len() > 0 && s.last() == c {
        lemma_trim_trailing_prefix(s.drop_last(), c);
        let t = trim_trailing(s, c);
        assert(s.drop_last().take(t.len() as int) =~= s.take(t.len() as int));
        assert forall|k: int| t.len() <= k < s.len() implies s[k] == c by {
            if k < s.len() - 1 {
                assert(s.drop_last()[k] == s[k]);
            }
        }
    } else {
        assert(s.take(s.len() as int) =~= s);
    }
}

} // verus!

verus! {

/// Each schema operation first works on its own schema, quoted: creating
/// it creates the schema and revokes the public's rights on it; applying a
/// migration runs it with that schema first on the search path; dropping
/// it drops the schema with everything in it. Creating takes two steps.
pub proof fn law_schema_operations_start_with_their_schema(op: SupabaseOperation)
    ensures
        op matches SupabaseOperation::EnsureSchema { schema, .. } ==> operation_steps_of(op).len() == 2
            && operation_steps_of(op)[0] == SqlStepView::Batch(
            "create schema "@ + quoted_identifier(schema@) + "; revoke all on schema "@ + quoted_identifier(schema@)
                + " from public;"@,
        ),
        op matches SupabaseOperation::ApplyMigration { schema, .. } ==> operation_steps_of(op)[0] == SqlStepView::Batch(
            "set local search_path = "@ + quoted_identifier(schema@) + ", public, extensions;"@,
        ),
        op matches SupabaseOperation::DropSchema { schema, .. } ==> operation_steps_of(op)[0] == SqlStepView::Batch(
            "drop schema "@ + quoted_identifier(schema@) + " cascade;"@,
        ),
{
}

} // verus!
