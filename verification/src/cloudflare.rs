//! Decisions of the Cloudflare controller: what one pass does to a Worker,
//! tunnel or route given what the provider reports, the order in which
//! resources are handled, and the provider-safe names it manages.

use vstd::prelude::*;

use crate::fmt::{debug_quoted, debug_quoted_text, decimal, decimal_text};
use crate::resource::{collect, collect_outputs, output_pairs, ContentDigest, Resource, ResourceConvergence, ResourceGoal};
use crate::text::{find_char, has_prefix_at, skip_prefixes, starts_with, text_equal, trim_prefix_all, until_char};

verus! {

/// The kind of a built workload artifact.
#[derive(Clone, Copy, Debug, PartialEq, Eq, Structural)]
pub enum ArtifactKind {
    CloudflareWorker,
    StaticAssets,
}

/// A content-addressed artifact that a Worker deploys.
#[derive(Clone, Copy, Debug, PartialEq, Eq, Structural)]
pub struct ArtifactReference {
    pub kind: ArtifactKind,
    pub digest: ContentDigest,
}

/// The artifacts of a Worker: its entry module and optional static assets.
#[derive(Clone, Copy, Debug, PartialEq, Eq, Structural)]
pub struct SourceRef {
    pub entry: ArtifactReference,
    pub assets: Option<ArtifactReference>,
}

/// The desired body of a Worker: its artifacts, compatibility date and
/// flags, its variables (each value as JSON text) and its service bindings,
/// both by name.
#[derive(Clone, Debug, PartialEq, Eq)]
pub struct WorkerBody {
    pub source: SourceRef,
    pub compatibility_date: Option<String>,
    pub compatibility_flags: Vec<String>,
    pub vars: Vec<(String, String)>,
    pub services: Vec<(String, String)>,
}

/// The desired body of a tunnel: the origin it exposes.
#[derive(Clone, Debug, PartialEq, Eq)]
pub struct TunnelBody {
    pub origin: TunnelOrigin,
}

/// A host and port behind a tunnel.
#[derive(Clone, Debug, PartialEq, Eq)]
pub struct TunnelOrigin {
    pub host: String,
    pub port: u16,
}

/// The desired body of a route: a pattern in a zone served by a Worker.
#[derive(Clone, Debug, PartialEq, Eq)]
pub struct RouteBody {
    pub pattern: String,
    pub zone: String,
    pub worker_name: String,
}

/// How the live transport reaches Cloudflare: the account (discovered when
/// absent), the API base URL, and the Wrangler binary and configuration
/// paths.
#[derive(Clone, Debug)]
pub struct LiveCloudflareConfig {
    pub account_id: Option<String>,
    pub api_base: String,
    pub wrangler: String,
    pub wrangler_config: String,
}

/// Why a Cloudflare pass failed.
#[derive(Clone, Debug)]
pub enum CloudflareError {
    Config(String),
    Contract(String),
    Unavailable(String),
    Provider(String),
}

/// What Cloudflare reports for a deployed Worker.
#[derive(Clone, Debug)]
pub struct WorkerObservation {
    pub url: String,
    pub worker_name: String,
    pub deployment_id: String,
    pub version_id: String,
}

/// What Cloudflare reports for a tunnel.
#[derive(Clone, Debug)]
pub struct TunnelObservation {
    pub tunnel_id: String,
    pub tunnel_name: String,
    pub private_hostname: String,
    pub token_ref: String,
}

/// What Cloudflare reports for a route.
#[derive(Clone, Debug)]
pub struct RouteObservation {
    pub hostname: String,
}

/// What the provider holds for a resource: nothing, something owned by
/// someone else, or one of the managed kinds.
#[derive(Clone, Debug)]
pub enum CloudflareObservation {
    Missing,
    Foreign,
    Worker { digest: ContentDigest, subdomain_enabled: bool, observation: WorkerObservation },
    Tunnel { configured: bool, observation: TunnelObservation },
    Route { matches: bool, observation: RouteObservation },
}

/// A resource's desired body, decoded for its kind.
#[derive(Clone, Debug, PartialEq, Eq)]
pub enum DesiredBody {
    Worker(WorkerBody),
    Tunnel(TunnelBody),
    Route(RouteBody),
}

/// The one action a pass takes; an upload, a tunnel configuration and a
/// route write carry the desired body they send.
#[derive(Clone, Debug, PartialEq, Eq)]
pub enum CloudflareAction {
    UploadWorker(WorkerBody),
    EnableWorkerSubdomain,
    CreateTunnel,
    ConfigureTunnel(TunnelBody),
    WriteRoute(RouteBody),
    Delete,
}

/// Which action it is.
pub open spec fn action_kind(a: CloudflareAction) -> CloudflareActionKind {
    match a {
        CloudflareAction::UploadWorker(_) => CloudflareActionKind::UploadWorker,
        CloudflareAction::EnableWorkerSubdomain => CloudflareActionKind::EnableWorkerSubdomain,
        CloudflareAction::CreateTunnel => CloudflareActionKind::CreateTunnel,
        CloudflareAction::ConfigureTunnel(_) => CloudflareActionKind::ConfigureTunnel,
        CloudflareAction::WriteRoute(_) => CloudflareActionKind::WriteRoute,
        CloudflareAction::Delete => CloudflareActionKind::Delete,
    }
}

/// The body an action sends, if any.
pub open spec fn action_body(a: CloudflareAction) -> Option<DesiredBody> {
    match a {
        CloudflareAction::UploadWorker(w) => Some(DesiredBody::Worker(w)),
        CloudflareAction::ConfigureTunnel(t) => Some(DesiredBody::Tunnel(t)),
        CloudflareAction::WriteRoute(r) => Some(DesiredBody::Route(r)),
        _ => None,
    }
}

/// The actions that send the resource's desired body.
pub open spec fn sends_body(k: CloudflareActionKind) -> bool {
    k == CloudflareActionKind::UploadWorker || k == CloudflareActionKind::ConfigureTunnel || k
        == CloudflareActionKind::WriteRoute
}

/// A decoded body has the shape of its resource's kind.
pub open spec fn body_fits(kind: Seq<char>, b: DesiredBody) -> bool {
    &&& kind == "cloudflare/worker"@ ==> b is Worker
    &&& kind == "cloudflare/tunnel"@ ==> b is Tunnel
    &&& kind == "cloudflare/route"@ ==> b is Route
}

/// Which action a pass takes.
#[derive(Clone, Copy, Debug, PartialEq, Eq, Structural)]
pub enum CloudflareActionKind {
    UploadWorker,
    EnableWorkerSubdomain,
    CreateTunnel,
    ConfigureTunnel,
    WriteRoute,
    Delete,
}

/// The outcome of comparing desired and observed state for one resource.
#[derive(Clone, Debug)]
pub enum CloudflareDecision {
    Act(CloudflareAction),
    Converged(ResourceConvergence),
}

// === Managed names ===

/// The name prefix of every resource that Henosis manages on Cloudflare.
pub open spec fn managed_prefix() -> Seq<char> {
    "henosis-"@
}

/// Refuses to touch a Cloudflare resource whose name does not carry the
/// managed prefix.
pub fn require_owned_name(name: &str) -> (r: Result<(), CloudflareError>)
    ensures
        starts_with(name@, managed_prefix()) ==> r is Ok,
        !starts_with(name@, managed_prefix()) ==> (r matches Err(CloudflareError::Config(m)) && m@
            == "refusing to mutate unmanaged Cloudflare resource "@ + debug_quoted_text(name@)
            + "; managed names start with henosis-"@),
{
    if has_prefix_at(name, 0, "henosis-") {
        assert(name@.skip(0) =~= name@);
        Ok(())
    } else {
        assert(name@.skip(0) =~= name@);
        let mut m = String::from_str("refusing to mutate unmanaged Cloudflare resource ");
        let quoted = debug_quoted(name);
        m.append(quoted.as_str());
        m.append("; managed names start with henosis-");
        Err(CloudflareError::Config(m))
    }
}

/// The host that a route pattern serves: the pattern without any leading
/// `http://` and then `https://` schemes, cut at the first `/`, without any
/// leading `*.` wildcards.
pub open spec fn route_hostname(pattern: Seq<char>) -> Seq<char> {
    trim_prefix_all(until_char(trim_prefix_all(trim_prefix_all(pattern, "http://"@), "https://"@), '/'), "*."@)
}

/// The host that a route pattern serves.
pub fn hostname_from_pattern(pattern: &str) -> (host: String)
    ensures
        host@ == route_hostname(pattern@),
{
    proof {
        reveal_strlit("http://");
        reveal_strlit("https://");
        reveal_strlit("*.");
    }
    assert(pattern@.skip(0) =~= pattern@);
    let a = skip_prefixes(pattern, 0, "http://");
    let b = skip_prefixes(pattern, a, "https://");
    let e = find_char(pattern, b, '/');
    let segment = pattern.substring_char(b, e);
    assert(segment@.skip(0) =~= segment@);
    let c = skip_prefixes(segment, 0, "*.");
    let rest = segment.substring_char(c, segment.unicode_len());
    assert(rest@ =~= segment@.skip(c as int));
    String::from_str(rest)
}

/// A character that Cloudflare accepts in a managed name.
pub open spec fn name_safe(c: char) -> bool {
    ('a' <= c && c <= 'z') || ('0' <= c && c <= '9') || c == '-'
}

/// `s` with every character that is not name-safe replaced by `-`.
pub open spec fn sanitize(s: Seq<char>) -> Seq<char> {
    s.map_values(|c: char| if name_safe(c) { c } else { '-' })
}

/// `s` without leading and trailing `-`.
pub open spec fn trim_dashes(s: Seq<char>) -> Seq<char> {
    trim_trailing_dashes(trim_prefix_all(s, "-"@))
}

/// `s` without trailing `-`.
pub open spec fn trim_trailing_dashes(s: Seq<char>) -> Seq<char>
    decreases s.len(),
{
    if s.len() > 0 && s.last() == '-' {
        trim_trailing_dashes(s.drop_last())
    } else {
        s
    }
}

/// The managed Cloudflare name of a resource: `henosis-`, the name-safe
/// resource name without outer dashes and cut so that the whole name fits
/// 63 characters, `-`, and the last eight characters of the resource id.
pub open spec fn managed_name_text(resource_name: Seq<char>, resource_id: Seq<char>) -> Seq<char> {
    let suffix = if resource_id.len() >= 8 { resource_id.skip(resource_id.len() - 8) } else { resource_id };
    let maximum_base: int = if 63 >= 9 + suffix.len() { 63 - (9 + suffix.len()) } else { 0 };
    let safe = trim_dashes(sanitize(resource_name));
    let cut = if safe.len() <= maximum_base { safe } else { safe.take(maximum_base) };
    "henosis-"@ + cut + "-"@ + suffix
}

/// The managed name of a resource from its name and the text of its id.
pub fn managed_name(resource_name: &str, resource_id: &str) -> (name: String)
    ensures
        name@ == managed_name_text(resource_name@, resource_id@),
{
    proof {
        reveal_strlit("-");
    }
    let n = resource_name.unicode_len();
    let mut safe = String::new();
    let mut i: usize = 0;
    while i < n
        invariant
            n == resource_name@.len(),
            i <= n,
            safe@ == sanitize(resource_name@).take(i as int),
        decreases n - i,
    {
        let c = resource_name.get_char(i);
        let ghost before = safe@;
        assert(sanitize(resource_name@)[i as int] == (if name_safe(c) { c } else { '-' }));
        if ('a' <= c && c <= 'z') || ('0' <= c && c <= '9') || c == '-' {
            let piece = resource_name.substring_char(i, i + 1);
            assert(piece@ =~= seq![c]);
            safe.append(piece);
        } else {
            proof {
                reveal_strlit("-");
            }
            assert("-"@ =~= seq!['-']);
            safe.append("-");
        }
        assert(safe@ =~= sanitize(resource_name@).take(i + 1));
        i = i + 1;
    }
    assert(sanitize(resource_name@).take(n as int) =~= sanitize(resource_name@));
    let id_len = resource_id.unicode_len();
    let suffix_start = if id_len >= 8 { id_len - 8 } else { 0 };
    let suffix = resource_id.substring_char(suffix_start, id_len);
    assert(suffix@ =~= (if resource_id@.len() >= 8 { resource_id@.skip(resource_id@.len() - 8) } else { resource_id@ }));
    let suffix_len = id_len - suffix_start;
    let maximum_base: usize = if 63 >= 9 + suffix_len { 63 - (9 + suffix_len) } else { 0 };
    let safe_text = safe.as_str();
    assert(safe_text@.skip(0) =~= safe_text@);
    let lo = skip_prefixes(safe_text, 0, "-");
    let mut hi = safe_text.unicode_len();
    assert(safe_text@.subrange(lo as int, hi as int) =~= safe_text@.skip(lo as int));
    while hi > lo && safe_text.get_char(hi - 1) == '-'
        invariant
            lo <= hi <= safe_text@.len(),
            trim_dashes(safe_text@) == trim_trailing_dashes(safe_text@.subrange(lo as int, hi as int)),
        decreases hi,
    {
        assert(safe_text@.subrange(lo as int, hi as int).drop_last() =~= safe_text@.subrange(lo as int, hi - 1));
        hi = hi - 1;
    }
    assert(trim_trailing_dashes(safe_text@.subrange(lo as int, hi as int)) == safe_text@.subrange(lo as int, hi as int));
    let end = if hi - lo <= maximum_base { hi } else { lo + maximum_base };
    let cut = safe_text.substring_char(lo, end);
    assert(cut@ =~= (if (hi - lo) <= maximum_base { safe_text@.subrange(lo as int, hi as int) } else {
        safe_text@.subrange(lo as int, hi as int).take(maximum_base as int)
    }));
    let mut name = String::from_str("henosis-");
    name.append(cut);
    name.append("-");
    name.append(suffix);
    name
}

// === Ordering of resources within a pass ===

/// The rank that orders resources within a pass, lowest first. Present:
/// Workers without service bindings, then Workers with them, tunnels,
/// routes. Absent: routes, then Workers with service bindings, Workers
/// without, tunnels. Other kinds come last.
pub open spec fn rank_of(goal: ResourceGoal, kind: Seq<char>, worker_has_services: bool) -> u8 {
    if goal == ResourceGoal::Present {
        if kind == "cloudflare/worker"@ {
            if worker_has_services { 1 } else { 0 }
        } else if kind == "cloudflare/tunnel"@ {
            2
        } else if kind == "cloudflare/route"@ {
            3
        } else {
            4
        }
    } else {
        if kind == "cloudflare/route"@ {
            0
        } else if kind == "cloudflare/worker"@ {
            if worker_has_services { 1 } else { 2 }
        } else if kind == "cloudflare/tunnel"@ {
            3
        } else {
            4
        }
    }
}

/// The order of a pass. Toward presence Workers come first (those without
/// service bindings before those with), then tunnels, then routes, which
/// point at them; toward absence the order reverses for the dependents:
/// routes are removed first, then Workers (those with service bindings
/// first), and tunnels last. Other kinds come after all of these, and only a
/// Worker's rank depends on its service bindings.
pub proof fn law_cloudflare_pass_order(s: bool, t: bool, other: Seq<char>)
    requires
        other != "cloudflare/worker"@,
        other != "cloudflare/tunnel"@,
        other != "cloudflare/route"@,
    ensures
        rank_of(ResourceGoal::Present, "cloudflare/worker"@, false) < rank_of(ResourceGoal::Present, "cloudflare/worker"@, true),
        rank_of(ResourceGoal::Present, "cloudflare/worker"@, s) < rank_of(ResourceGoal::Present, "cloudflare/tunnel"@, t),
        rank_of(ResourceGoal::Present, "cloudflare/tunnel"@, s) < rank_of(ResourceGoal::Present, "cloudflare/route"@, t),
        rank_of(ResourceGoal::Present, "cloudflare/route"@, s) < rank_of(ResourceGoal::Present, other, t),
        rank_of(ResourceGoal::Absent, "cloudflare/route"@, s) < rank_of(ResourceGoal::Absent, "cloudflare/worker"@, t),
        rank_of(ResourceGoal::Absent, "cloudflare/worker"@, true) < rank_of(ResourceGoal::Absent, "cloudflare/worker"@, false),
        rank_of(ResourceGoal::Absent, "cloudflare/worker"@, s) < rank_of(ResourceGoal::Absent, "cloudflare/tunnel"@, t),
        rank_of(ResourceGoal::Absent, "cloudflare/tunnel"@, s) < rank_of(ResourceGoal::Absent, other, t),
        rank_of(ResourceGoal::Absent, "cloudflare/route"@, s) < rank_of(ResourceGoal::Absent, "cloudflare/tunnel"@, t),
        rank_of(ResourceGoal::Present, "cloudflare/tunnel"@, s) == rank_of(ResourceGoal::Present, "cloudflare/tunnel"@, t),
        rank_of(ResourceGoal::Present, "cloudflare/route"@, s) == rank_of(ResourceGoal::Present, "cloudflare/route"@, t),
        rank_of(ResourceGoal::Absent, "cloudflare/tunnel"@, s) == rank_of(ResourceGoal::Absent, "cloudflare/tunnel"@, t),
        rank_of(ResourceGoal::Absent, "cloudflare/route"@, s) == rank_of(ResourceGoal::Absent, "cloudflare/route"@, t),
{
    reveal_strlit("cloudflare/worker");
    reveal_strlit("cloudflare/tunnel");
    reveal_strlit("cloudflare/route");
    assert("cloudflare/worker"@ != "cloudflare/tunnel"@) by {
        assert("cloudflare/worker"@[11] != "cloudflare/tunnel"@[11]);
    }
    assert("cloudflare/worker"@ != "cloudflare/route"@) by {
        assert("cloudflare/worker"@.len() != "cloudflare/route"@.len());
    }
    assert("cloudflare/tunnel"@ != "cloudflare/route"@) by {
        assert("cloudflare/tunnel"@.len() != "cloudflare/route"@.len());
    }
}

/// The rank of a resource of kind `kind` (whose body declares service
/// bindings when `worker_has_services`) for reaching `goal`.
pub fn cloudflare_rank(goal: ResourceGoal, kind: &str, worker_has_services: bool) -> (rank: u8)
    ensures
        rank == rank_of(goal, kind@, worker_has_services),
{
    let worker = text_equal(kind, "cloudflare/worker");
    let tunnel = text_equal(kind, "cloudflare/tunnel");
    let route = text_equal(kind, "cloudflare/route");
    match goal {
        ResourceGoal::Present => {
            if worker {
                if worker_has_services { 1 } else { 0 }
            } else if tunnel {
                2
            } else if route {
                3
            } else {
                4
            }
        },
        ResourceGoal::Absent => {
            if route {
                0
            } else if worker {
                if worker_has_services { 1 } else { 2 }
            } else if tunnel {
                3
            } else {
                4
            }
        },
    }
}

// === The per-resource decision ===

/// The outputs a converged Worker can report, in order.
pub open spec fn worker_candidates(o: WorkerObservation) -> Seq<(Seq<char>, Seq<char>)> {
    seq![("url"@, o.url@), ("workerName"@, o.worker_name@), ("deploymentId"@, o.deployment_id@), ("versionId"@, o.version_id@)]
}

/// The outputs a converged tunnel can report, in order.
pub open spec fn tunnel_candidates(o: TunnelObservation) -> Seq<(Seq<char>, Seq<char>)> {
    seq![("tunnelId"@, o.tunnel_id@), ("tunnelName"@, o.tunnel_name@), ("privateHostname"@, o.private_hostname@), ("tokenRef"@, o.token_ref@)]
}

/// The outputs a converged route can report.
pub open spec fn route_candidates(o: RouteObservation) -> Seq<(Seq<char>, Seq<char>)> {
    seq![("hostname"@, o.hostname@)]
}

/// What a pass toward presence does with a resource of a supported kind,
/// before any output is collected.
pub enum PresentStep {
    Act(CloudflareActionKind),
    ConvergeWorker,
    ConvergeTunnel,
    ConvergeRoute,
    Unsupported,
    Incompatible,
}

/// The step toward presence: create what is missing, re-upload a Worker
/// whose digest differs, enable its subdomain, configure an unconfigured
/// tunnel, rewrite a route that does not match, and otherwise report the
/// observed outputs. A missing resource of another kind is unsupported; any
/// other observation is incompatible.
pub open spec fn present_step(kind: Seq<char>, version: u32, digest: ContentDigest, observed: CloudflareObservation) -> PresentStep {
    let worker = kind == "cloudflare/worker"@ && version == 1;
    let tunnel = kind == "cloudflare/tunnel"@ && version == 1;
    let route = kind == "cloudflare/route"@ && version == 1;
    match observed {
        CloudflareObservation::Missing => {
            if worker {
                PresentStep::Act(CloudflareActionKind::UploadWorker)
            } else if tunnel {
                PresentStep::Act(CloudflareActionKind::CreateTunnel)
            } else if route {
                PresentStep::Act(CloudflareActionKind::WriteRoute)
            } else {
                PresentStep::Unsupported
            }
        },
        CloudflareObservation::Worker { digest: d, subdomain_enabled, .. } => {
            if !worker {
                PresentStep::Incompatible
            } else if d != digest {
                PresentStep::Act(CloudflareActionKind::UploadWorker)
            } else if !subdomain_enabled {
                PresentStep::Act(CloudflareActionKind::EnableWorkerSubdomain)
            } else {
                PresentStep::ConvergeWorker
            }
        },
        CloudflareObservation::Tunnel { configured, .. } => {
            if !tunnel {
                PresentStep::Incompatible
            } else if !configured {
                PresentStep::Act(CloudflareActionKind::ConfigureTunnel)
            } else {
                PresentStep::ConvergeTunnel
            }
        },
        CloudflareObservation::Route { matches, .. } => {
            if !route {
                PresentStep::Incompatible
            } else if !matches {
                PresentStep::Act(CloudflareActionKind::WriteRoute)
            } else {
                PresentStep::ConvergeRoute
            }
        },
        CloudflareObservation::Foreign => PresentStep::Incompatible,
    }
}

/// The decision for a converged resource: the declared outputs among the
/// candidates and the evidence bytes, or the output error.
pub open spec fn converged_as(
    r: Result<CloudflareDecision, CloudflareError>,
    resource: Resource,
    cands: Seq<(Seq<char>, Seq<char>)>,
    evidence: Seq<char>,
) -> bool {
    match collect_outputs(resource, cands) {
        Ok(s) => r matches Ok(CloudflareDecision::Converged(c)) && output_pairs(c.outputs@) == s && c.evidence@
            == vstd::utf8::encode_utf8(evidence) && forall|k: int| 0 <= k < c.outputs@.len() ==> (#[trigger] c.outputs@[k]).resource == resource.id,
        Err(m) => r matches Err(CloudflareError::Contract(e)) && e@ == m,
    }
}

fn converge_with(resource: &Resource, names: Vec<&str>, values: Vec<String>, evidence: &str) -> (r: Result<CloudflareDecision, CloudflareError>)
    requires
        names@.len() == values@.len(),
    ensures
        converged_as(r, *resource, Seq::new(names@.len(), |i: int| (names@[i]@, values@[i]@)), evidence@),
{
    match collect(resource, &names, &values) {
        Ok(outputs) => Ok(CloudflareDecision::Converged(ResourceConvergence { outputs, evidence: evidence.as_bytes_vec() })),
        Err(m) => Err(CloudflareError::Contract(m)),
    }
}

/// Decides the one step a pass takes for `resource` toward `goal` given
/// what Cloudflare reports: refuse to touch what another owner holds; for
/// absence delete what exists; for presence follow `present_step`. An
/// action that sends the desired body carries `body`, the resource's body
/// decoded for its kind, and a body that did not decode (`body` holds the
/// decoder's message) refuses such an action as an invalid body.
pub fn diff(resource: &Resource, goal: ResourceGoal, observed: &CloudflareObservation, body: Result<DesiredBody, String>) -> (r:
    Result<CloudflareDecision, CloudflareError>)
    requires
        body matches Ok(b) ==> body_fits(resource.kind_name@, b),
    ensures
        observed is Foreign ==> (r matches Err(CloudflareError::Provider(m)) && m@ == "refusing to mutate "@ + resource.path@
            + " because target ownership metadata/identity does not match"@),
        !(observed is Foreign) && goal == ResourceGoal::Absent ==> {
            &&& observed is Missing ==> (r matches Ok(CloudflareDecision::Converged(c)) && c.outputs@.len() == 0 && c.evidence@.len() == 0)
            &&& !(observed is Missing) ==> r matches Ok(CloudflareDecision::Act(CloudflareAction::Delete))
        },
        !(observed is Foreign) && goal == ResourceGoal::Present ==> match present_step(resource.kind_name@, resource.kind_version, resource.digest, *observed) {
            PresentStep::Act(k) => if !sends_body(k) {
                r matches Ok(CloudflareDecision::Act(a)) && action_kind(a) == k
            } else {
                match body {
                    Ok(b) => r matches Ok(CloudflareDecision::Act(a)) && action_kind(a) == k && action_body(a) == Some(b),
                    Err(e) => r matches Err(CloudflareError::Contract(m)) && m@ == "error[cloudflare.body.invalid]: "@
                        + resource.path@ + ": "@ + e@,
                }
            },
            PresentStep::ConvergeWorker => match *observed {
                CloudflareObservation::Worker { observation, .. } => converged_as(r, *resource, worker_candidates(observation), observation.deployment_id@),
                _ => false,
            },
            PresentStep::ConvergeTunnel => match *observed {
                CloudflareObservation::Tunnel { observation, .. } => converged_as(r, *resource, tunnel_candidates(observation), observation.tunnel_id@),
                _ => false,
            },
            PresentStep::ConvergeRoute => match *observed {
                CloudflareObservation::Route { observation, .. } => converged_as(r, *resource, route_candidates(observation), observation.hostname@),
                _ => false,
            },
            PresentStep::Unsupported => r matches Err(CloudflareError::Contract(m)) && m@ == "error[cloudflare.kind.unsupported]: "@
                + resource.path@ + " has unsupported kind "@ + resource.kind_name@ + "@"@ + decimal(resource.kind_version as nat),
            PresentStep::Incompatible => r matches Err(CloudflareError::Provider(m)) && m@ == "Cloudflare returned an observation incompatible with "@
                + resource.path@,
        },
{
    if let CloudflareObservation::Foreign = observed {
        let mut m = String::from_str("refusing to mutate ");
        m.append(resource.path.as_str());
        m.append(" because target ownership metadata/identity does not match");
        return Err(CloudflareError::Provider(m));
    }
    if let ResourceGoal::Absent = goal {
        return if let CloudflareObservation::Missing = observed {
            Ok(CloudflareDecision::Converged(ResourceConvergence { outputs: Vec::new(), evidence: Vec::new() }))
        } else {
            Ok(CloudflareDecision::Act(CloudflareAction::Delete))
        };
    }
    let worker = text_equal(resource.kind_name.as_str(), "cloudflare/worker") && resource.kind_version == 1;
    let tunnel = text_equal(resource.kind_name.as_str(), "cloudflare/tunnel") && resource.kind_version == 1;
    let route = text_equal(resource.kind_name.as_str(), "cloudflare/route") && resource.kind_version == 1;
    match observed {
        CloudflareObservation::Missing => {
            if worker {
                with_body(resource, CloudflareActionKind::UploadWorker, body)
            } else if tunnel {
                Ok(CloudflareDecision::Act(CloudflareAction::CreateTunnel))
            } else if route {
                with_body(resource, CloudflareActionKind::WriteRoute, body)
            } else {
                let mut m = String::from_str("error[cloudflare.kind.unsupported]: ");
                m.append(resource.path.as_str());
                m.append(" has unsupported kind ");
                m.append(resource.kind_name.as_str());
                m.append("@");
                let v = decimal_text(resource.kind_version as u64);
                m.append(v.as_str());
                Err(CloudflareError::Contract(m))
            }
        },
        CloudflareObservation::Worker { digest, subdomain_enabled, observation } => {
            if !worker {
                incompatible(resource)
            } else if *digest != resource.digest {
                with_body(resource, CloudflareActionKind::UploadWorker, body)
            } else if !*subdomain_enabled {
                Ok(CloudflareDecision::Act(CloudflareAction::EnableWorkerSubdomain))
            } else {
                let names = vec!["url", "workerName", "deploymentId", "versionId"];
                let values = vec![observation.url.clone(), observation.worker_name.clone(), observation.deployment_id.clone(), observation.version_id.clone()];
                let r = converge_with(resource, names, values, observation.deployment_id.as_str());
                assert(Seq::new(4, |i: int| (names@[i]@, values@[i]@)) =~= worker_candidates(*observation));
                r
            }
        },
        CloudflareObservation::Tunnel { configured, observation } => {
            if !tunnel {
                incompatible(resource)
            } else if !*configured {
                with_body(resource, CloudflareActionKind::ConfigureTunnel, body)
            } else {
                let names = vec!["tunnelId", "tunnelName", "privateHostname", "tokenRef"];
                let values = vec![observation.tunnel_id.clone(), observation.tunnel_name.clone(), observation.private_hostname.clone(), observation.token_ref.clone()];
                let r = converge_with(resource, names, values, observation.tunnel_id.as_str());
                assert(Seq::new(4, |i: int| (names@[i]@, values@[i]@)) =~= tunnel_candidates(*observation));
                r
            }
        },
        CloudflareObservation::Route { matches, observation } => {
            if !route {
                incompatible(resource)
            } else if !*matches {
                with_body(resource, CloudflareActionKind::WriteRoute, body)
            } else {
                let names = vec!["hostname"];
                let values = vec![observation.hostname.clone()];
                let r = converge_with(resource, names, values, observation.hostname.as_str());
                assert(Seq::new(1, |i: int| (names@[i]@, values@[i]@)) =~= route_candidates(*observation));
                r
            }
        },
        CloudflareObservation::Foreign => incompatible(resource),
    }
}

/// The action of kind `k`, which sends the desired body, with the decoded
/// `body`; or the invalid-body refusal.
fn with_body(resource: &Resource, k: CloudflareActionKind, body: Result<DesiredBody, String>) -> (r: Result<
    CloudflareDecision,
    CloudflareError,
>)
    requires
        sends_body(k),
        body matches Ok(b) ==> (k == CloudflareActionKind::UploadWorker ==> b is Worker) && (k
            == CloudflareActionKind::ConfigureTunnel ==> b is Tunnel) && (k == CloudflareActionKind::WriteRoute
            ==> b is Route),
    ensures
        match body {
            Ok(b) => r matches Ok(CloudflareDecision::Act(a)) && action_kind(a) == k && action_body(a) == Some(b),
            Err(e) => r matches Err(CloudflareError::Contract(m)) && m@ == "error[cloudflare.body.invalid]: "@
                + resource.path@ + ": "@ + e@,
        },
{
    match body {
        Ok(DesiredBody::Worker(w)) => Ok(CloudflareDecision::Act(CloudflareAction::UploadWorker(w))),
        Ok(DesiredBody::Tunnel(t)) => Ok(CloudflareDecision::Act(CloudflareAction::ConfigureTunnel(t))),
        Ok(DesiredBody::Route(b)) => Ok(CloudflareDecision::Act(CloudflareAction::WriteRoute(b))),
        Err(e) => {
            let mut m = String::from_str("error[cloudflare.body.invalid]: ");
            m.append(resource.path.as_str());
            m.append(": ");
            m.append(e.as_str());
            Err(CloudflareError::Contract(m))
        },
    }
}

fn incompatible(resource: &Resource) -> (r: Result<CloudflareDecision, CloudflareError>)
    ensures
        r matches Err(CloudflareError::Provider(m)) && m@ == "Cloudflare returned an observation incompatible with "@ + resource.path@,
{
    let mut m = String::from_str("Cloudflare returned an observation incompatible with ");
    m.append(resource.path.as_str());
    Err(CloudflareError::Provider(m))
}


// === Redacting command output ===

/// A character with the Unicode `White_Space` property, as
/// `char::is_whitespace` tests it.
pub open spec fn whitespace(c: char) -> bool {
    ('\u{9}' <= c && c <= '\u{d}') || c == ' ' || c == '\u{85}' || c == '\u{a0}' || c == '\u{1680}' || ('\u{2000}' <= c
        && c <= '\u{200a}') || c == '\u{2028}' || c == '\u{2029}' || c == '\u{202f}' || c == '\u{205f}' || c == '\u{3000}'
}

fn is_whitespace(c: char) -> (r: bool)
    ensures
        r == whitespace(c),
{
    ('\u{9}' <= c && c <= '\u{d}') || c == ' ' || c == '\u{85}' || c == '\u{a0}' || c == '\u{1680}' || ('\u{2000}' <= c
        && c <= '\u{200a}') || c == '\u{2028}' || c == '\u{2029}' || c == '\u{202f}' || c == '\u{205f}' || c == '\u{3000}'
}

/// `p` is the first character of `s` that is not whitespace.
pub open spec fn first_visible(s: Seq<char>, p: int) -> bool {
    0 <= p < s.len() && !whitespace(s[p]) && forall|k: int| 0 <= k < p ==> whitespace(#[trigger] s[k])
}

/// `e` ends the line that holds `p`: the first `\n` at or after `p`, or the
/// end of `s`.
pub open spec fn line_end(s: Seq<char>, p: int, e: int) -> bool {
    p <= e <= s.len() && (e == s.len() || s[e] == '\n') && forall|k: int| p <= k < e ==> #[trigger] s[k] != '\n'
}

/// `t` without trailing whitespace.
pub open spec fn trim_end_ws(t: Seq<char>) -> Seq<char>
    decreases t.len(),
{
    if t.len() > 0 && whitespace(t.last()) {
        trim_end_ws(t.drop_last())
    } else {
        t
    }
}

/// The first at most 240 characters of `t`.
pub open spec fn first_240(t: Seq<char>) -> Seq<char> {
    if t.len() <= 240 {
        t
    } else {
        t.take(240)
    }
}

/// What a failed command's output is reduced to: its first line that is
/// not blank, trimmed and cut to 240 characters; `verification failed`
/// when every line is blank.
pub open spec fn redacted(detail: Seq<char>) -> Seq<char> {
    if exists|p: int| first_visible(detail, p) {
        let p = choose|p: int| first_visible(detail, p);
        let e = choose|e: int| line_end(detail, p, e);
        first_240(trim_end_ws(detail.subrange(p, e)))
    } else {
        "verification failed"@
    }
}

/// Reduces a failed command's output, as `redacted` states.
pub fn redact_command_detail(detail: &str) -> (text: String)
    ensures
        text@ == redacted(detail@),
{
    let n = detail.unicode_len();
    let mut p: usize = 0;
    while p < n && is_whitespace(detail.get_char(p))
        invariant
            n == detail@.len(),
            p <= n,
            forall|k: int| 0 <= k < p ==> whitespace(#[trigger] detail@[k]),
        decreases n - p,
    {
        p = p + 1;
    }
    if p == n {
        proof {
            assert forall|q: int| !first_visible(detail@, q) by {
                if 0 <= q < n {
                    assert(whitespace(detail@[q]));
                }
            }
        }
        return String::from_str("verification failed");
    }
    let mut e = p;
    while e < n && detail.get_char(e) != '\n'
        invariant
            n == detail@.len(),
            p <= e <= n,
            forall|k: int| p <= k < e ==> #[trigger] detail@[k] != '\n',
        decreases n - e,
    {
        e = e + 1;
    }
    proof {
        assert(first_visible(detail@, p as int));
        assert(line_end(detail@, p as int, e as int));
        let q = choose|q: int| first_visible(detail@, q);
        if q < p {
        } else if q > p {
        }
        let f = choose|f: int| line_end(detail@, p as int, f);
        if f < e {
            assert(detail@[f] == '\n');
        } else if f > e {
            assert(detail@[e as int] == '\n');
        }
    }
    let mut end = e;
    let ghost line = detail@.subrange(p as int, e as int);
    assert(detail@.subrange(p as int, end as int) =~= line.take(end - p));
    while end > p && is_whitespace(detail.get_char(end - 1))
        invariant
            p <= end <= e <= n,
            n == detail@.len(),
            line == detail@.subrange(p as int, e as int),
            trim_end_ws(line) == trim_end_ws(detail@.subrange(p as int, end as int)),
        decreases end,
    {
        assert(detail@.subrange(p as int, end as int).drop_last() =~= detail@.subrange(p as int, end - 1));
        end = end - 1;
    }
    let cut = if end - p > 240 {
        p + 240
    } else {
        end
    };
    let piece = detail.substring_char(p, cut);
    proof {
        let t = detail@.subrange(p as int, end as int);
        if end > p {
            assert(!whitespace(t.last()));
        } else {
            assert(t.len() == 0);
        }
        assert(trim_end_ws(t) == t);
        assert(piece@ =~= first_240(t));
    }
    piece.to_string()
}

} // verus!

verus! {

/// One pass toward presence, per kind (version 1): a missing Worker is
/// uploaded, one whose deployed digest differs from the desired digest is
/// uploaded again, one with the desired digest but no subdomain gets its
/// subdomain, and one with both converges; a missing tunnel is created, an
/// unconfigured one configured, a configured one converges; a missing route
/// is written, one that does not match rewritten, one that matches
/// converges. A resource of one managed kind observed as another, or as a
/// foreign resource, is incompatible.
pub proof fn law_present_steps(version_one: u32, digest: ContentDigest, observed: CloudflareObservation)
    requires
        version_one == 1,
    ensures
        present_step("cloudflare/worker"@, version_one, digest, CloudflareObservation::Missing) == PresentStep::Act(
            CloudflareActionKind::UploadWorker,
        ),
        present_step("cloudflare/tunnel"@, version_one, digest, CloudflareObservation::Missing) == PresentStep::Act(
            CloudflareActionKind::CreateTunnel,
        ),
        present_step("cloudflare/route"@, version_one, digest, CloudflareObservation::Missing) == PresentStep::Act(
            CloudflareActionKind::WriteRoute,
        ),
        ({
            let step = present_step("cloudflare/worker"@, version_one, digest, observed);
            observed matches CloudflareObservation::Worker { digest: d, subdomain_enabled, .. } ==> {
                &&& d != digest ==> step == PresentStep::Act(CloudflareActionKind::UploadWorker)
                &&& d == digest && !subdomain_enabled ==> step == PresentStep::Act(CloudflareActionKind::EnableWorkerSubdomain)
                &&& d == digest && subdomain_enabled ==> step == PresentStep::ConvergeWorker
            }
        }),
        ({
            let step = present_step("cloudflare/tunnel"@, version_one, digest, observed);
            observed matches CloudflareObservation::Tunnel { configured, .. } ==> {
                &&& configured ==> step == PresentStep::ConvergeTunnel
                &&& !configured ==> step == PresentStep::Act(CloudflareActionKind::ConfigureTunnel)
            }
        }),
        ({
            let step = present_step("cloudflare/route"@, version_one, digest, observed);
            observed matches CloudflareObservation::Route { matches, .. } ==> {
                &&& matches ==> step == PresentStep::ConvergeRoute
                &&& !matches ==> step == PresentStep::Act(CloudflareActionKind::WriteRoute)
            }
        }),
        (!(observed is Worker) && !(observed is Missing)) ==> (present_step("cloudflare/worker"@, version_one, digest, observed)
            == PresentStep::Incompatible),
        (!(observed is Tunnel) && !(observed is Missing)) ==> (present_step("cloudflare/tunnel"@, version_one, digest, observed)
            == PresentStep::Incompatible),
        (!(observed is Route) && !(observed is Missing)) ==> (present_step("cloudflare/route"@, version_one, digest, observed)
            == PresentStep::Incompatible),
{
    reveal_strlit("cloudflare/worker");
    reveal_strlit("cloudflare/tunnel");
    reveal_strlit("cloudflare/route");
    assert("cloudflare/worker"@ != "cloudflare/tunnel"@) by {
        assert("cloudflare/worker"@[11] != "cloudflare/tunnel"@[11]);
    }
    assert("cloudflare/worker"@ != "cloudflare/route"@) by {
        assert("cloudflare/worker"@.len() != "cloudflare/route"@.len());
    }
    assert("cloudflare/tunnel"@ != "cloudflare/route"@) by {
        assert("cloudflare/tunnel"@.len() != "cloudflare/route"@.len());
    }
}

/// A managed name carries the managed prefix, fits 63 characters, and ends
/// with `-` and the last eight characters of the resource id (all of it when
/// shorter); between them stand only name-safe characters, the first of
/// them no `-`.
pub proof fn law_managed_name_shape(resource_name: Seq<char>, resource_id: Seq<char>)
    ensures
        ({
            let name = managed_name_text(resource_name, resource_id);
            let suffix = if resource_id.len() >= 8 { resource_id.skip(resource_id.len() - 8) } else { resource_id };
            let middle = name.subrange(8, name.len() - suffix.len() - 1);
            &&& starts_with(name, managed_prefix())
            &&& name.len() <= 63
            &&& name.skip(name.len() - suffix.len()) == suffix
            &&& name[name.len() - suffix.len() - 1] == '-'
            &&& forall|i: int| 0 <= i < middle.len() ==> name_safe(#[trigger] middle[i])
            &&& middle.len() > 0 ==> middle[0] != '-'
        }),
{
    reveal_strlit("henosis-");
    reveal_strlit("-");
    assert("-"@ =~= seq!['-']);
    assert("henosis-"@.len() == 8);
    let suffix = if resource_id.len() >= 8 { resource_id.skip(resource_id.len() - 8) } else { resource_id };
    let s = sanitize(resource_name);
    let k = lemma_trim_leading_dashes(s);
    let t = s.skip(k);
    let j = lemma_trim_trailing_dashes(t);
    let safe = trim_dashes(s);
    assert(safe == t.take(j));
    let maximum_base: int = if 63 >= 9 + suffix.len() { 63 - (9 + suffix.len()) } else { 0 };
    let cut = if safe.len() <= maximum_base { safe } else { safe.take(maximum_base) };
    let name = managed_name_text(resource_name, resource_id);
    assert(name == "henosis-"@ + cut + "-"@ + suffix);
    assert(name.take(8) =~= "henosis-"@);
    assert(name.skip(name.len() - suffix.len()) =~= suffix);
    assert(name.subrange(8, name.len() - suffix.len() - 1) =~= cut);
    assert forall|i: int| 0 <= i < cut.len() implies name_safe(#[trigger] cut[i]) by {
        assert(cut[i] == s[k + i]);
    }
    if cut.len() > 0 {
        assert(cut[0] == safe[0]);
        assert(safe[0] == s[k]);
    }
}

/// Leading dashes go: what is left is a suffix of `s` that does not start
/// with `-`.
proof fn lemma_trim_leading_dashes(s: Seq<char>) -> (k: int)
    ensures
        0 <= k <= s.len(),
        trim_prefix_all(s, "-"@) == s.skip(k),
        k < s.len() ==> s[k] != '-',
    decreases s.len(),
{
    reveal_strlit("-");
    assert("-"@ =~= seq!['-']);
    if starts_with(s, "-"@) {
        let r = lemma_trim_leading_dashes(s.skip(1));
        assert(s.skip(1).skip(r) =~= s.skip(1 + r));
        if 1 + r < s.len() {
            assert(s.skip(1)[r] == s[1 + r]);
        }
        1 + r
    } else {
        assert(s.skip(0) =~= s);
        if s.len() > 0 {
            assert(s.take(1) =~= seq![s[0]]);
        }
        0
    }
}

/// Trailing dashes go: what is left is a prefix of `s` that does not end
/// with `-`.
proof fn lemma_trim_trailing_dashes(s: Seq<char>) -> (j: int)
    ensures
        0 <= j <= s.len(),
        trim_trailing_dashes(s) == s.take(j),
        j > 0 ==> s[j - 1] != '-',
    decreases s.len(),
{
    if s.len() > 0 && s.last() == '-' {
        let r = lemma_trim_trailing_dashes(s.drop_last());
        assert(s.drop_last().take(r) =~= s.take(r));
        r
    } else {
        assert(s.take(s.len() as int) =~= s);
        s.len() as int
    }
}

} // verus!

verus! {

/// A failed command's output is reduced to at most 240 characters of one
/// line: no line break survives, output that is blank throughout becomes
/// `verification failed`, and otherwise the text kept starts with the
/// output's first character that is not whitespace.
pub proof fn law_redaction(detail: Seq<char>)
    ensures
        redacted(detail).len() <= 240,
        forall|k: int| 0 <= k < redacted(detail).len() ==> #[trigger] redacted(detail)[k] != '\n',
        (forall|k: int| 0 <= k < detail.len() ==> whitespace(#[trigger] detail[k])) ==> redacted(detail) == "verification failed"@,
        (exists|p: int| first_visible(detail, p)) ==> ({
            let p = choose|p: int| first_visible(detail, p);
            redacted(detail).len() > 0 && redacted(detail)[0] == detail[p]
        }),
{
    reveal_strlit("verification failed");
    if exists|p: int| first_visible(detail, p) {
        let p = choose|p: int| first_visible(detail, p);
        assert(line_end(detail, p, detail.len() as int) || exists|e: int| line_end(detail, p, e)) by {
            lemma_line_end_exists(detail, p, p);
        }
        let e = choose|e: int| line_end(detail, p, e);
        let line = detail.subrange(p, e);
        let j = lemma_trim_end_ws_prefix(line);
        let t = trim_end_ws(line);
        assert(e > p) by {
            if e == p {
                if e < detail.len() {
                    assert(detail[e] == '\n');
                    assert(whitespace(detail[p]));
                }
            }
        }
        assert(line[0] == detail[p]);
        assert(!whitespace(line[0]));
        assert(j >= 1);
        assert forall|k: int| 0 <= k < redacted(detail).len() implies #[trigger] redacted(detail)[k] != '\n' by {
            assert(redacted(detail)[k] == t[k]);
            assert(t[k] == line[k]);
            assert(line[k] == detail[p + k]);
        }
    } else {
        if forall|k: int| 0 <= k < detail.len() ==> whitespace(#[trigger] detail[k]) {
        }
    }
}

/// Trailing whitespace goes: what is left is a prefix of `t` that is empty
/// only when `t` is blank.
proof fn lemma_trim_end_ws_prefix(t: Seq<char>) -> (j: int)
    ensures
        0 <= j <= t.len(),
        trim_end_ws(t) == t.take(j),
        t.len() > 0 && !whitespace(t[0]) ==> j >= 1,
    decreases t.len(),
{
    if t.len() > 0 && whitespace(t.last()) {
        let r = lemma_trim_end_ws_prefix(t.drop_last());
        assert(t.drop_last().take(r) =~= t.take(r));
        if t.len() > 1 {
            assert(t.drop_last()[0] == t[0]);
        }
        r
    } else {
        assert(t.take(t.len() as int) =~= t);
        t.len() as int
    }
}

/// Every position of `s` from `q` on lies on a line that ends.
proof fn lemma_line_end_exists(s: Seq<char>, p: int, q: int)
    requires
        0 <= p <= q <= s.len(),
        forall|k: int| p <= k < q ==> #[trigger] s[k] != '\n',
    ensures
        exists|e: int| line_end(s, p, e),
    decreases s.len() - q,
{
    if q == s.len() || s[q] == '\n' {
        assert(line_end(s, p, q));
    } else {
        lemma_line_end_exists(s, p, q + 1);
    }
}

} // verus!

verus! {

/// A route pattern serves the host between its scheme (`https://`,
/// `http://` or none) and its first `/`, without a leading `*.` wildcard
/// (for a host, as route patterns write one, without `/` or `:`).
pub proof fn law_route_hostname(scheme: Seq<char>, wildcard: bool, host: Seq<char>, path: Seq<char>)
    requires
        scheme == "https://"@ || scheme == "http://"@ || scheme.len() == 0,
        forall|k: int| 0 <= k < host.len() ==> host[k] != '/' && host[k] != ':',
        host.len() > 0 ==> host[0] != '*',
    ensures
        route_hostname(scheme + (if wildcard { "*."@ } else { Seq::empty() }) + host + seq!['/'] + path) == host,
{
    reveal_strlit("https://");
    reveal_strlit("http://");
    reveal_strlit("*.");
    let w: Seq<char> = if wildcard { "*."@ } else { Seq::empty() };
    let rest = w + host + seq!['/'] + path;
    let pattern = scheme + (if wildcard { "*."@ } else { Seq::empty() }) + host + seq!['/'] + path;
    assert(pattern =~= scheme + rest);
    // The part after the scheme never starts with a scheme.
    assert(!starts_with(rest, "https://"@) && !starts_with(rest, "http://"@)) by {
        let h = host.len() as int;
        if wildcard {
            assert(rest[0] == '*');
            if starts_with(rest, "http://"@) {
                assert(rest.take(7)[0] == rest[0]);
            }
            if starts_with(rest, "https://"@) {
                assert(rest.take(8)[0] == rest[0]);
            }
        } else {
            assert(rest =~= host + seq!['/'] + path);
            assert(rest[h] == '/');
            if starts_with(rest, "http://"@) {
                let q = rest.take(7);
                if h > 4 {
                    assert(q[4] == rest[4]);
                    assert(rest[4] == host[4]);
                } else {
                    assert(q[h] == rest[h]);
                }
            }
            if starts_with(rest, "https://"@) {
                let q = rest.take(8);
                if h > 5 {
                    assert(q[5] == rest[5]);
                    assert(rest[5] == host[5]);
                } else {
                    assert(q[h] == rest[h]);
                }
            }
        }
    }
    let after_http = trim_prefix_all(pattern, "http://"@);
    let after_https = trim_prefix_all(after_http, "https://"@);
    assert(after_https == rest) by {
        if scheme == "https://"@ {
            assert(!starts_with(pattern, "http://"@)) by {
                assert(pattern[4] == scheme[4]);
                if starts_with(pattern, "http://"@) {
                    assert(pattern.take(7)[4] == pattern[4]);
                }
            }
            lemma_trim_one(scheme, rest);
        } else if scheme == "http://"@ {
            lemma_trim_one(scheme, rest);
            lemma_trim_none(rest, "https://"@);
        } else {
            assert(pattern =~= rest);
            lemma_trim_none(rest, "http://"@);
            lemma_trim_none(rest, "https://"@);
        }
    }
    lemma_until_first(w + host, '/', path);
    assert(rest =~= (w + host) + seq!['/'] + path);
    assert(w + host == until_char(rest, '/'));
    if wildcard {
        lemma_trim_one(w, host);
        assert(!starts_with(host, "*."@)) by {
            if host.len() >= 2 {
                assert(host.take(2)[0] == host[0]);
            }
        }
        lemma_trim_none(host, "*."@);
    } else {
        assert(w + host =~= host);
        assert(!starts_with(host, "*."@)) by {
            if host.len() >= 2 {
                assert(host.take(2)[0] == host[0]);
            }
        }
        lemma_trim_none(host, "*."@);
    }
}

/// One leading copy of `p` goes, and the rest stays when it does not begin
/// with `p` again.
proof fn lemma_trim_one(p: Seq<char>, s: Seq<char>)
    requires
        p.len() > 0,
        !starts_with(s, p),
    ensures
        trim_prefix_all(p + s, p) == s,
{
    assert((p + s).take(p.len() as int) =~= p);
    assert((p + s).skip(p.len() as int) =~= s);
    lemma_trim_none(s, p);
}

/// Nothing goes from text that does not begin with `p`.
proof fn lemma_trim_none(s: Seq<char>, p: Seq<char>)
    requires
        !starts_with(s, p),
    ensures
        trim_prefix_all(s, p) == s,
{
}

/// The text before the first `c` of `a`, `c`, `b`, when `a` holds no `c`.
proof fn lemma_until_first(a: Seq<char>, c: char, b: Seq<char>)
    requires
        forall|k: int| 0 <= k < a.len() ==> a[k] != c,
    ensures
        until_char(a + seq![c] + b, c) == a,
    decreases a.len(),
{
    let s = a + seq![c] + b;
    if a.len() == 0 {
        assert(s[0] == c);
    } else {
        assert(s[0] == a[0]);
        assert(s.drop_first() =~= a.drop_first() + seq![c] + b);
        lemma_until_first(a.drop_first(), c, b);
        assert(a =~= seq![a[0]] + a.drop_first());
    }
}

} // verus!
