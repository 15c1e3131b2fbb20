//! Decisions of a graph operation: whether desired bundle pins differ from
//! the deployed ones in a way that deploys, which components change, and
//! whether the artifacts built for a source match what its bundles require.

use vstd::prelude::*;

use crate::controller::ResourceDisposition;
use crate::resource::ContentDigest;
use crate::text::{chars_lt, compare_text, lemma_chars_lt_total, lemma_chars_lt_transitive, text_equal, Precedence};
use crate::textset::TextSet;

verus! {

/// Where a graph stands.
#[derive(Clone, Copy, Debug, PartialEq, Eq, Structural)]
pub enum GraphPhase {
    Planning,
    Blocked,
    Reconciling,
    Ready,
    Failed,
    Retired,
}

/// A component pinned to a bundle, with the artifact digests bound to its
/// inputs (input name, digest text) and where the source came from.
#[derive(Clone, Debug, PartialEq, Eq)]
pub struct BundlePin {
    pub component: String,
    pub bundle: ContentDigest,
    pub input_bindings: Vec<(String, String)>,
    pub source: Option<String>,
}

/// An input a component waits for, and what would produce it.
#[derive(Clone, Debug, PartialEq, Eq)]
pub struct BlockedOn {
    pub component: String,
    pub input: String,
    pub producer: Option<String>,
    pub output: Option<String>,
}

/// What the core reports of a graph.
#[derive(Clone, Debug)]
pub struct GraphStatus {
    pub graph: u128,
    pub generation: u64,
    pub phase: GraphPhase,
    pub blocked_on: Vec<BlockedOn>,
    pub observed_ready: usize,
    pub planned_resources: usize,
    pub diagnostic: Option<String>,
    pub bundles: Vec<BundlePin>,
    pub dispositions: Vec<ResourceDisposition>,
}

impl GraphStatus {
    /// The status of a graph whose generation is still being planned.
    pub fn planning(graph: u128, generation: u64) -> (status: Self)
        ensures
            status.graph == graph,
            status.generation == generation,
            status.phase == GraphPhase::Planning,
            status.blocked_on@.len() == 0,
            status.observed_ready == 0,
            status.planned_resources == 0,
            status.diagnostic is None,
            status.bundles@.len() == 0,
            status.dispositions@.len() == 0,
    {
        GraphStatus {
            graph,
            generation,
            phase: GraphPhase::Planning,
            blocked_on: Vec::new(),
            observed_ready: 0,
            planned_resources: 0,
            diagnostic: None,
            bundles: Vec::new(),
            dispositions: Vec::new(),
        }
    }
}

// === Deployable equality of pins ===

/// The digest bound to `input`: that of the last binding of it, as a map
/// built from the bindings holds it.
pub open spec fn binding_of(bindings: Seq<(String, String)>, input: Seq<char>) -> Option<Seq<char>>
    decreases bindings.len(),
{
    if bindings.len() == 0 {
        None
    } else if bindings.last().0@ == input {
        Some(bindings.last().1@)
    } else {
        binding_of(bindings.drop_last(), input)
    }
}

/// Two binding lists bind every input alike.
pub open spec fn same_bindings(a: Seq<(String, String)>, b: Seq<(String, String)>) -> bool {
    forall|input: Seq<char>| #[trigger] binding_of(a, input) == binding_of(b, input)
}

/// Two pins deploy the same thing: same component, bundle and bindings;
/// where the source came from does not count.
pub open spec fn same_pin(old: BundlePin, new: BundlePin) -> bool {
    old.component@ == new.component@ && old.bundle == new.bundle && same_bindings(old.input_bindings@, new.input_bindings@)
}

/// Two pin lists deploy the same thing, pin by pin.
pub open spec fn same_pins(current: Seq<BundlePin>, desired: Seq<BundlePin>) -> bool {
    current.len() == desired.len() && forall|i: int| 0 <= i < current.len() ==> same_pin(#[trigger] current[i], desired[i])
}

proof fn lemma_binding_absent(bindings: Seq<(String, String)>, input: Seq<char>)
    requires
        forall|i: int| 0 <= i < bindings.len() ==> (#[trigger] bindings[i]).0@ != input,
    ensures
        binding_of(bindings, input) is None,
    decreases bindings.len(),
{
    if bindings.len() > 0 {
        let rest = bindings.drop_last();
        assert forall|i: int| 0 <= i < rest.len() implies (#[trigger] rest[i]).0@ != input by {
            assert(rest[i] == bindings[i]);
        }
        lemma_binding_absent(rest, input);
    }
}

fn find_binding(bindings: &Vec<(String, String)>, input: &str) -> (found: Option<usize>)
    ensures
        found matches Some(i) ==> i < bindings@.len() && binding_of(bindings@, input@) == Some(bindings@[i as int].1@),
        found is None ==> binding_of(bindings@, input@) is None,
        found is None ==> forall|i: int| 0 <= i < bindings@.len() ==> (#[trigger] bindings@[i]).0@ != input@,
{
    let mut i = bindings.len();
    assert(bindings@.take(i as int) =~= bindings@);
    while i > 0
        invariant
            i <= bindings@.len(),
            binding_of(bindings@, input@) == binding_of(bindings@.take(i as int), input@),
            forall|j: int| i <= j < bindings@.len() ==> (#[trigger] bindings@[j]).0@ != input@,
        decreases i,
    {
        let ghost prefix = bindings@.take(i as int);
        assert(prefix.last() == bindings@[i - 1]);
        if text_equal(bindings[i - 1].0.as_str(), input) {
            return Some(i - 1);
        }
        assert(prefix.drop_last() =~= bindings@.take(i - 1));
        i = i - 1;
    }
    proof {
        lemma_binding_absent(bindings@, input@);
    }
    None
}

fn bindings_cover(a: &Vec<(String, String)>, b: &Vec<(String, String)>) -> (same: bool)
    ensures
        same == forall|i: int| 0 <= i < a@.len() ==> binding_of(a@, #[trigger] a@[i].0@) == binding_of(b@, a@[i].0@),
{
    let n = a.len();
    let mut i: usize = 0;
    while i < n
        invariant
            n == a@.len(),
            i <= n,
            forall|k: int| 0 <= k < i ==> binding_of(a@, #[trigger] a@[k].0@) == binding_of(b@, a@[k].0@),
        decreases n - i,
    {
        let key = a[i].0.as_str();
        let x = find_binding(a, key);
        let y = find_binding(b, key);
        let equal = match (x, y) {
            (Some(p), Some(q)) => text_equal(a[p].1.as_str(), b[q].1.as_str()),
            (None, None) => true,
            _ => false,
        };
        if !equal {
            return false;
        }
        i = i + 1;
    }
    true
}

/// Whether two pins deploy the same thing, as `same_pin` states.
pub fn same_deployable_pin(old: &BundlePin, new: &BundlePin) -> (same: bool)
    ensures
        same == same_pin(*old, *new),
{
    if !text_equal(old.component.as_str(), new.component.as_str()) || old.bundle != new.bundle {
        return false;
    }
    let forward = bindings_cover(&old.input_bindings, &new.input_bindings);
    let backward = bindings_cover(&new.input_bindings, &old.input_bindings);
    proof {
        let a = old.input_bindings@;
        let b = new.input_bindings@;
        if forward && backward {
            assert forall|input: Seq<char>| #[trigger] binding_of(a, input) == binding_of(b, input) by {
                if exists|i: int| 0 <= i < a.len() && a[i].0@ == input {
                    let i = choose|i: int| 0 <= i < a.len() && a[i].0@ == input;
                    assert(binding_of(a, a[i].0@) == binding_of(b, a[i].0@));
                } else if exists|i: int| 0 <= i < b.len() && b[i].0@ == input {
                    let i = choose|i: int| 0 <= i < b.len() && b[i].0@ == input;
                    assert(binding_of(b, b[i].0@) == binding_of(a, b[i].0@));
                } else {
                    lemma_binding_absent(a, input);
                    lemma_binding_absent(b, input);
                }
            }
        }
    }
    forward && backward
}

/// Whether two pin lists deploy the same thing, as `same_pins` states.
pub fn same_deployable_pins(current: &[BundlePin], desired: &[BundlePin]) -> (same: bool)
    ensures
        same == same_pins(current@, desired@),
{
    if current.len() != desired.len() {
        return false;
    }
    let n = current.len();
    let mut i: usize = 0;
    while i < n
        invariant
            n == current@.len(),
            n == desired@.len(),
            i <= n,
            forall|k: int| 0 <= k < i ==> same_pin(#[trigger] current@[k], desired@[k]),
        decreases n - i,
    {
        if !same_deployable_pin(&current[i], &desired[i]) {
            return false;
        }
        i = i + 1;
    }
    true
}

// === Changed components ===

/// The pin of `component`: the last one naming it.
pub open spec fn pin_of(pins: Seq<BundlePin>, component: Seq<char>) -> Option<BundlePin>
    decreases pins.len(),
{
    if pins.len() == 0 {
        None
    } else if pins.last().component@ == component {
        Some(pins.last())
    } else {
        pin_of(pins.drop_last(), component)
    }
}

/// `component` changes between the deployed and the desired pins: it is
/// added, removed, or pinned to something that deploys differently.
pub open spec fn component_changes(current: Seq<BundlePin>, desired: Seq<BundlePin>, component: Seq<char>) -> bool {
    match (pin_of(current, component), pin_of(desired, component)) {
        (Some(old), Some(new)) => !same_pin(old, new),
        (None, None) => false,
        _ => true,
    }
}

/// The deployed pins, none when the graph does not exist yet.
pub open spec fn deployed_pins(current: Option<&GraphStatus>) -> Seq<BundlePin> {
    match current {
        Some(s) => s.bundles@,
        None => Seq::empty(),
    }
}

proof fn lemma_pin_absent(pins: Seq<BundlePin>, component: Seq<char>)
    requires
        forall|i: int| 0 <= i < pins.len() ==> (#[trigger] pins[i]).component@ != component,
    ensures
        pin_of(pins, component) is None,
    decreases pins.len(),
{
    if pins.len() > 0 {
        let rest = pins.drop_last();
        assert forall|i: int| 0 <= i < rest.len() implies (#[trigger] rest[i]).component@ != component by {
            assert(rest[i] == pins[i]);
        }
        lemma_pin_absent(rest, component);
    }
}

fn find_pin(pins: &[BundlePin], component: &str) -> (found: Option<usize>)
    ensures
        found matches Some(i) ==> i < pins@.len() && pin_of(pins@, component@) == Some(pins@[i as int]),
        found is None ==> pin_of(pins@, component@) is None,
{
    let mut i = pins.len();
    assert(pins@.take(i as int) =~= pins@);
    while i > 0
        invariant
            i <= pins@.len(),
            pin_of(pins@, component@) == pin_of(pins@.take(i as int), component@),
            forall|j: int| i <= j < pins@.len() ==> (#[trigger] pins@[j]).component@ != component@,
        decreases i,
    {
        let ghost prefix = pins@.take(i as int);
        assert(prefix.last() == pins@[i - 1]);
        if text_equal(pins[i - 1].component.as_str(), component) {
            return Some(i - 1);
        }
        assert(prefix.drop_last() =~= pins@.take(i - 1));
        i = i - 1;
    }
    proof {
        lemma_pin_absent(pins@, component@);
    }
    None
}

fn add_names(names: &mut TextSet, pins: &[BundlePin])
    ensures
        final(names)@ == old(names)@.union(Set::new(|c: Seq<char>| exists|i: int| 0 <= i < pins@.len() && pins@[i].component@ == c)),
{
    let ghost start = names@;
    let n = pins.len();
    let mut i: usize = 0;
    while i < n
        invariant
            n == pins@.len(),
            i <= n,
            names@ == start.union(Set::new(|c: Seq<char>| exists|j: int| 0 <= j < i && pins@[j].component@ == c)),
        decreases n - i,
    {
        names.insert(pins[i].component.clone());
        proof {
            assert forall|c: Seq<char>| names@.contains(c) <==> start.union(
                Set::new(|c: Seq<char>| exists|j: int| 0 <= j < i + 1 && pins@[j].component@ == c),
            ).contains(c) by {
                if c == pins@[i as int].component@ {
                }
            }
            assert(names@ =~= start.union(Set::new(|c: Seq<char>| exists|j: int| 0 <= j < i + 1 && pins@[j].component@ == c)));
        }
        i = i + 1;
    }
}

/// The components that change between the deployed pins (none when the
/// graph does not exist yet) and the desired ones, in ascending name order.
pub fn changed_component_names(current: Option<&GraphStatus>, pins: &[BundlePin]) -> (names: Vec<String>)
    ensures
        forall|i: int, j: int| 0 <= i < j < names@.len() ==> chars_lt(names@[i]@, names@[j]@),
        forall|i: int| 0 <= i < names@.len() ==> component_changes(deployed_pins(current), pins@, #[trigger] names@[i]@),
        forall|c: Seq<char>| component_changes(deployed_pins(current), pins@, c) ==> exists|i: int|
            0 <= i < names@.len() && #[trigger] names@[i]@ == c,
{
    let empty: Vec<BundlePin> = Vec::new();
    let deployed: &[BundlePin] = match current {
        Some(s) => s.bundles.as_slice(),
        None => empty.as_slice(),
    };
    assert(deployed@ == deployed_pins(current));
    let mut all = TextSet::new();
    add_names(&mut all, deployed);
    add_names(&mut all, pins);
    let items = all.items();
    let ghost ordered = crate::textset::texts(items@);
    let mut out: Vec<String> = Vec::new();
    let n = items.len();
    let mut i: usize = 0;
    while i < n
        invariant
            n == items@.len(),
            ordered == crate::textset::texts(items@),
            crate::textset::strictly_ascending(ordered),
            deployed@ == deployed_pins(current),
            forall|c: Seq<char>| all@.contains(c) <==> ordered.contains(c),
            all@ == Set::<Seq<char>>::empty().union(
                Set::new(|c: Seq<char>| exists|j: int| 0 <= j < deployed@.len() && deployed@[j].component@ == c),
            ).union(Set::new(|c: Seq<char>| exists|j: int| 0 <= j < pins@.len() && pins@[j].component@ == c)),
            i <= n,
            forall|a: int| 0 <= a < out@.len() ==> exists|t: int| 0 <= t < i && #[trigger] out@[a]@ == ordered[t],
            forall|a: int, b: int| 0 <= a < b < out@.len() ==> chars_lt(out@[a]@, out@[b]@),
            forall|a: int| 0 <= a < out@.len() ==> component_changes(deployed@, pins@, #[trigger] out@[a]@),
            forall|t: int| 0 <= t < i && component_changes(deployed@, pins@, #[trigger] ordered[t]) ==> exists|a: int|
                0 <= a < out@.len() && out@[a]@ == ordered[t],
        decreases n - i,
    {
        let name = items[i].as_str();
        assert(name@ == ordered[i as int]);
        let old_pin = find_pin(deployed, name);
        let new_pin = find_pin(pins, name);
        let changes = match (old_pin, new_pin) {
            (Some(p), Some(q)) => !same_deployable_pin(&deployed[p], &pins[q]),
            (None, None) => false,
            _ => true,
        };
        if changes {
            let ghost before = out@;
            out.push(items[i].clone());
            proof {
                assert forall|a: int, b: int| 0 <= a < b < out@.len() implies chars_lt(out@[a]@, out@[b]@) by {
                    if b == out@.len() - 1 {
                        assert(out@[a] == before[a]);
                        let t = choose|t: int| 0 <= t < i && #[trigger] before[a]@ == ordered[t];
                        assert(chars_lt(ordered[t], ordered[i as int]));
                    } else {
                        assert(out@[a] == before[a]);
                        assert(out@[b] == before[b]);
                    }
                }
                assert forall|a: int| 0 <= a < out@.len() implies exists|t: int| 0 <= t < i + 1 && #[trigger] out@[a]@
                    == ordered[t] by {
                    if a < before.len() {
                        assert(out@[a] == before[a]);
                    } else {
                        assert(out@[a]@ == ordered[i as int]);
                    }
                }
                assert forall|a: int| 0 <= a < out@.len() implies component_changes(deployed@, pins@, #[trigger] out@[a]@) by {
                    if a < before.len() {
                        assert(out@[a] == before[a]);
                    }
                }
                assert forall|t: int| 0 <= t < i + 1 && component_changes(deployed@, pins@, #[trigger] ordered[t]) implies exists|a: int|
                    0 <= a < out@.len() && out@[a]@ == ordered[t] by {
                    if t < i {
                        let a = choose|a: int| 0 <= a < before.len() && before[a]@ == ordered[t];
                        assert(out@[a] == before[a]);
                    } else {
                        assert(out@[out@.len() - 1]@ == ordered[t]);
                    }
                }
            }
        }
        i = i + 1;
    }
    proof {
        assert forall|c: Seq<char>| component_changes(deployed_pins(current), pins@, c) implies exists|i: int|
            0 <= i < out@.len() && #[trigger] out@[i]@ == c by {
            if !all@.contains(c) {
                assert forall|j: int| 0 <= j < deployed@.len() implies (#[trigger] deployed@[j]).component@ != c by {
                }
                assert forall|j: int| 0 <= j < pins@.len() implies (#[trigger] pins@[j]).component@ != c by {
                }
                lemma_pin_absent(deployed@, c);
                lemma_pin_absent(pins@, c);
            }
            assert(ordered.contains(c));
            let t = choose|t: int| 0 <= t < ordered.len() && ordered[t] == c;
            assert(component_changes(deployed@, pins@, ordered[t]));
        }
    }
    out
}


// === Artifact bindings against bundle requirements ===

/// What a workload artifact is built as.
#[derive(Clone, Copy, Debug, PartialEq, Eq, Structural)]
pub enum WorkloadArtifactKind {
    CloudflareWorker,
    StaticAssets,
}

/// An artifact that a bundle requires for one component input, and where
/// the requirement was written.
#[derive(Clone, Debug, PartialEq, Eq)]
pub struct ArtifactRequirement {
    pub component: String,
    pub input: String,
    pub kind: WorkloadArtifactKind,
    pub path: String,
    pub source_path: String,
    pub line: u32,
    pub column: u32,
}

/// An artifact built for one component input: its kind, digest text,
/// source file and stored location.
#[derive(Clone, Debug, PartialEq, Eq)]
pub struct ArtifactBinding {
    pub component: String,
    pub input: String,
    pub kind: WorkloadArtifactKind,
    pub digest: String,
    pub source: String,
    pub stored: String,
}

/// Why a graph operation failed.
#[derive(Clone, Debug, PartialEq, Eq)]
pub enum OperationError {
    Bundle(String),
    Checkout(String),
    Artifact(String),
    Core(String),
    InvalidBundleDomain(String),
    GraphMissing(String),
    DuplicateComponent(String),
    MissingComponent(String),
    UnexpectedArtifact { component: String, input: String },
    MissingArtifact { component: String, input: String },
    DuplicateArtifact { component: String, input: String },
    IncompatibleArtifact { component: String, input: String, expected: WorkloadArtifactKind, actual: WorkloadArtifactKind },
}

/// The order of (component, input) keys.
pub open spec fn pair_lt(a: (Seq<char>, Seq<char>), b: (Seq<char>, Seq<char>)) -> bool {
    chars_lt(a.0, b.0) || (a.0 == b.0 && chars_lt(a.1, b.1))
}

pub(crate) proof fn lemma_pair_total(a: (Seq<char>, Seq<char>), b: (Seq<char>, Seq<char>))
    ensures
        a == b || pair_lt(a, b) || pair_lt(b, a),
        !(pair_lt(a, b) && pair_lt(b, a)),
        !pair_lt(a, a),
{
    lemma_chars_lt_total(a.0, b.0);
    lemma_chars_lt_total(a.1, b.1);
}

pub(crate) proof fn lemma_pair_transitive(a: (Seq<char>, Seq<char>), b: (Seq<char>, Seq<char>), c: (Seq<char>, Seq<char>))
    requires
        pair_lt(a, b),
        pair_lt(b, c),
    ensures
        pair_lt(a, c),
{
    lemma_chars_lt_total(a.0, b.0);
    lemma_chars_lt_total(b.0, c.0);
    if chars_lt(a.0, b.0) && chars_lt(b.0, c.0) {
        lemma_chars_lt_transitive(a.0, b.0, c.0);
    }
    if a.0 == b.0 && b.0 == c.0 {
        lemma_chars_lt_transitive(a.1, b.1, c.1);
    }
}

pub(crate) fn compare_pair(a0: &str, a1: &str, b0: &str, b1: &str) -> (before: bool)
    ensures
        before == pair_lt((a0@, a1@), (b0@, b1@)),
{
    proof {
        lemma_chars_lt_total(a0@, b0@);
        lemma_chars_lt_total(a1@, b1@);
    }
    match compare_text(a0, b0) {
        Precedence::Before => true,
        Precedence::After => false,
        Precedence::Same => compare_text(a1, b1) == Precedence::Before,
    }
}

/// The key of a binding.
pub open spec fn binding_key(b: ArtifactBinding) -> (Seq<char>, Seq<char>) {
    (b.component@, b.input@)
}

/// The key of a requirement.
pub open spec fn requirement_key(r: ArtifactRequirement) -> (Seq<char>, Seq<char>) {
    (r.component@, r.input@)
}

/// The kind required for `key`: that of the last requirement of it.
pub open spec fn required_kind(rs: Seq<ArtifactRequirement>, key: (Seq<char>, Seq<char>)) -> Option<WorkloadArtifactKind>
    decreases rs.len(),
{
    if rs.len() == 0 {
        None
    } else if requirement_key(rs.last()) == key {
        Some(rs.last().kind)
    } else {
        required_kind(rs.drop_last(), key)
    }
}

/// Some binding is for `key`.
pub open spec fn bound(bs: Seq<ArtifactBinding>, key: (Seq<char>, Seq<char>)) -> bool {
    exists|i: int| 0 <= i < bs.len() && binding_key(bs[i]) == key
}

/// Binding `j` repeats the key of an earlier binding, and is the first
/// binding that does.
pub open spec fn first_repeat(bs: Seq<ArtifactBinding>, j: int) -> bool {
    &&& 0 <= j < bs.len()
    &&& exists|i: int| 0 <= i < j && binding_key(bs[i]) == binding_key(bs[j])
    &&& forall|k: int, i: int| 0 <= i < k < j ==> binding_key(bs[i]) != binding_key(bs[k])
}

/// No two bindings share a key.
pub open spec fn no_repeats(bs: Seq<ArtifactBinding>) -> bool {
    forall|k: int, i: int| 0 <= i < k < bs.len() ==> binding_key(bs[i]) != binding_key(bs[k])
}

/// A binding for `key`, which no requirement asks for.
pub open spec fn unexpected(bs: Seq<ArtifactBinding>, rs: Seq<ArtifactRequirement>, key: (Seq<char>, Seq<char>)) -> bool {
    bound(bs, key) && required_kind(rs, key) is None
}

/// A requirement for `key`, which no binding meets.
pub open spec fn missing(bs: Seq<ArtifactBinding>, rs: Seq<ArtifactRequirement>, key: (Seq<char>, Seq<char>)) -> bool {
    required_kind(rs, key) is Some && !bound(bs, key)
}

/// The kind of the first binding for `key`.
pub open spec fn bound_kind(bs: Seq<ArtifactBinding>, key: (Seq<char>, Seq<char>)) -> Option<WorkloadArtifactKind>
    decreases bs.len(),
{
    if bs.len() == 0 {
        None
    } else if binding_key(bs[0]) == key {
        Some(bs[0].kind)
    } else {
        bound_kind(bs.drop_first(), key)
    }
}

/// A requirement for `key` that its binding's kind does not meet.
pub open spec fn mismatched(bs: Seq<ArtifactBinding>, rs: Seq<ArtifactRequirement>, key: (Seq<char>, Seq<char>)) -> bool {
    required_kind(rs, key) matches Some(e) && bound_kind(bs, key) != Some(e)
}

/// `key` is unexpected, and no unexpected key sorts before it.
pub open spec fn least_unexpected(bs: Seq<ArtifactBinding>, rs: Seq<ArtifactRequirement>, key: (Seq<char>, Seq<char>)) -> bool {
    unexpected(bs, rs, key) && forall|k: (Seq<char>, Seq<char>)| #[trigger] unexpected(bs, rs, k) ==> !pair_lt(k, key)
}

/// `key` is missing, and no missing key sorts before it.
pub open spec fn least_missing(bs: Seq<ArtifactBinding>, rs: Seq<ArtifactRequirement>, key: (Seq<char>, Seq<char>)) -> bool {
    missing(bs, rs, key) && forall|k: (Seq<char>, Seq<char>)| #[trigger] missing(bs, rs, k) ==> !pair_lt(k, key)
}

/// `key` is mismatched, and no mismatched key sorts before it.
pub open spec fn least_mismatched(bs: Seq<ArtifactBinding>, rs: Seq<ArtifactRequirement>, key: (Seq<char>, Seq<char>)) -> bool {
    mismatched(bs, rs, key) && forall|k: (Seq<char>, Seq<char>)| #[trigger] mismatched(bs, rs, k) ==> !pair_lt(k, key)
}

proof fn lemma_required_absent(rs: Seq<ArtifactRequirement>, key: (Seq<char>, Seq<char>))
    requires
        forall|i: int| 0 <= i < rs.len() ==> requirement_key(#[trigger] rs[i]) != key,
    ensures
        required_kind(rs, key) is None,
    decreases rs.len(),
{
    if rs.len() > 0 {
        let rest = rs.drop_last();
        assert forall|i: int| 0 <= i < rest.len() implies requirement_key(#[trigger] rest[i]) != key by {
            assert(rest[i] == rs[i]);
        }
        lemma_required_absent(rest, key);
    }
}

fn find_requirement(rs: &[ArtifactRequirement], component: &str, input: &str) -> (found: Option<usize>)
    ensures
        found matches Some(i) ==> i < rs@.len() && required_kind(rs@, (component@, input@)) == Some(rs@[i as int].kind),
        found is None ==> required_kind(rs@, (component@, input@)) is None,
{
    let ghost key = (component@, input@);
    let mut i = rs.len();
    assert(rs@.take(i as int) =~= rs@);
    while i > 0
        invariant
            i <= rs@.len(),
            key == (component@, input@),
            required_kind(rs@, key) == required_kind(rs@.take(i as int), key),
            forall|j: int| i <= j < rs@.len() ==> requirement_key(#[trigger] rs@[j]) != key,
        decreases i,
    {
        let ghost prefix = rs@.take(i as int);
        assert(prefix.last() == rs@[i - 1]);
        if text_equal(rs[i - 1].component.as_str(), component) && text_equal(rs[i - 1].input.as_str(), input) {
            return Some(i - 1);
        }
        assert(prefix.drop_last() =~= rs@.take(i - 1));
        i = i - 1;
    }
    proof {
        lemma_required_absent(rs@, key);
    }
    None
}

proof fn lemma_bound_kind_first(bs: Seq<ArtifactBinding>, key: (Seq<char>, Seq<char>), i: int)
    requires
        0 <= i < bs.len(),
        binding_key(bs[i]) == key,
        forall|j: int| 0 <= j < i ==> binding_key(#[trigger] bs[j]) != key,
    ensures
        bound_kind(bs, key) == Some(bs[i].kind),
    decreases i,
{
    if i > 0 {
        let rest = bs.drop_first();
        assert forall|j: int| 0 <= j < i - 1 implies binding_key(#[trigger] rest[j]) != key by {
            assert(rest[j] == bs[j + 1]);
        }
        lemma_bound_kind_first(rest, key, i - 1);
    }
}

proof fn lemma_bound_kind_absent(bs: Seq<ArtifactBinding>, key: (Seq<char>, Seq<char>))
    requires
        !bound(bs, key),
    ensures
        bound_kind(bs, key) is None,
    decreases bs.len(),
{
    if bs.len() > 0 {
        let rest = bs.drop_first();
        assert(binding_key(bs[0]) != key);
        assert forall|i: int| 0 <= i < rest.len() implies binding_key(#[trigger] rest[i]) != key by {
            assert(rest[i] == bs[i + 1]);
        }
        lemma_bound_kind_absent(rest, key);
    }
}

fn find_binding_for(bs: &[ArtifactBinding], component: &str, input: &str) -> (found: Option<usize>)
    ensures
        found matches Some(i) ==> i < bs@.len() && binding_key(bs@[i as int]) == (component@, input@) && bound(bs@, (component@, input@))
            && bound_kind(bs@, (component@, input@)) == Some(bs@[i as int].kind),
        found is None ==> !bound(bs@, (component@, input@)) && bound_kind(bs@, (component@, input@)) is None,
{
    let ghost key = (component@, input@);
    let n = bs.len();
    let mut i: usize = 0;
    while i < n
        invariant
            n == bs@.len(),
            key == (component@, input@),
            i <= n,
            forall|j: int| 0 <= j < i ==> binding_key(#[trigger] bs@[j]) != key,
        decreases n - i,
    {
        if text_equal(bs[i].component.as_str(), component) && text_equal(bs[i].input.as_str(), input) {
            proof {
                lemma_bound_kind_first(bs@, key, i as int);
            }
            return Some(i);
        }
        i = i + 1;
    }
    proof {
        lemma_bound_kind_absent(bs@, key);
    }
    None
}

fn first_repeated(bs: &[ArtifactBinding]) -> (found: Option<usize>)
    ensures
        found matches Some(j) ==> first_repeat(bs@, j as int),
        found is None ==> no_repeats(bs@),
{
    let n = bs.len();
    let mut j: usize = 0;
    while j < n
        invariant
            n == bs@.len(),
            j <= n,
            forall|k: int, i: int| 0 <= i < k < j ==> binding_key(bs@[i]) != binding_key(bs@[k]),
        decreases n - j,
    {
        let mut i: usize = 0;
        while i < j
            invariant
                n == bs@.len(),
                j < n,
                i <= j,
                forall|k: int, t: int| 0 <= t < k < j ==> binding_key(bs@[t]) != binding_key(bs@[k]),
                forall|t: int| 0 <= t < i ==> binding_key(#[trigger] bs@[t]) != binding_key(bs@[j as int]),
            decreases j - i,
        {
            if text_equal(bs[i].component.as_str(), bs[j].component.as_str()) && text_equal(bs[i].input.as_str(), bs[j].input.as_str()) {
                assert(binding_key(bs@[i as int]) == binding_key(bs@[j as int]));
                return Some(j);
            }
            i = i + 1;
        }
        j = j + 1;
    }
    None
}

/// Checks the artifacts built for a source against what its bundles
/// require: a key bound twice (the first repeat), then the least key bound
/// but not required, then the least required but not bound, then the least
/// bound with another kind than required.
#[verifier::rlimit(40)]
pub fn validate_bindings(requirements: &[ArtifactRequirement], bindings: &[ArtifactBinding]) -> (r: Result<(), OperationError>)
    ensures
        !no_repeats(bindings@) ==> exists|j: int| first_repeat(bindings@, j) && (r matches Err(OperationError::DuplicateArtifact { component, input })
            && (component@, input@) == binding_key(bindings@[j])),
        no_repeats(bindings@) && (exists|k: (Seq<char>, Seq<char>)| unexpected(bindings@, requirements@, k)) ==> (r matches Err(
            OperationError::UnexpectedArtifact { component, input },
        ) && least_unexpected(bindings@, requirements@, (component@, input@))),
        no_repeats(bindings@) && !(exists|k: (Seq<char>, Seq<char>)| unexpected(bindings@, requirements@, k)) && (exists|
            k: (Seq<char>, Seq<char>),
        | missing(bindings@, requirements@, k)) ==> (r matches Err(OperationError::MissingArtifact { component, input })
            && least_missing(bindings@, requirements@, (component@, input@))),
        no_repeats(bindings@) && !(exists|k: (Seq<char>, Seq<char>)| unexpected(bindings@, requirements@, k)) && !(exists|
            k: (Seq<char>, Seq<char>),
        | missing(bindings@, requirements@, k)) && (exists|k: (Seq<char>, Seq<char>)| mismatched(bindings@, requirements@, k)) ==> (
        r matches Err(OperationError::IncompatibleArtifact { component, input, expected, actual }) && least_mismatched(
            bindings@,
            requirements@,
            (component@, input@),
        ) && required_kind(requirements@, (component@, input@)) == Some(expected) && bound_kind(
            bindings@,
            (component@, input@),
        ) == Some(actual)),
        no_repeats(bindings@) && !(exists|k: (Seq<char>, Seq<char>)| unexpected(bindings@, requirements@, k)) && !(exists|
            k: (Seq<char>, Seq<char>),
        | missing(bindings@, requirements@, k)) && !(exists|k: (Seq<char>, Seq<char>)| mismatched(bindings@, requirements@, k))
            ==> r is Ok,
{
    let ghost bs = bindings@;
    let ghost rs = requirements@;
    if let Some(j) = first_repeated(bindings) {
        proof {
            assert forall|x: int| first_repeat(bs, x) implies x == j by {
                if x < j {
                    let i = choose|i: int| 0 <= i < x && binding_key(bs[i]) == binding_key(bs[x]);
                } else if x > j {
                    let i = choose|i: int| 0 <= i < j && binding_key(bs[i]) == binding_key(bs[j as int]);
                }
            }
            let i = choose|i: int| 0 <= i < j && binding_key(bs[i]) == binding_key(bs[j as int]);
            assert(!no_repeats(bs));
        }
        return Err(OperationError::DuplicateArtifact { component: bindings[j].component.clone(), input: bindings[j].input.clone() });
    }
    // The least unexpected binding.
    let n = bindings.len();
    let mut best: Option<usize> = None;
    let mut i: usize = 0;
    while i < n
        invariant
            n == bs.len(),
            bs == bindings@,
            rs == requirements@,
            i <= n,
            best matches Some(b) ==> b < i && unexpected(bs, rs, binding_key(bs[b as int])),
            forall|t: int| 0 <= t < i && unexpected(bs, rs, binding_key(#[trigger] bs[t])) ==> (best matches Some(b) && !pair_lt(
                binding_key(bs[t]),
                binding_key(bs[b as int]),
            )),
        decreases n - i,
    {
        let b = &bindings[i];
        let required = find_requirement(requirements, b.component.as_str(), b.input.as_str());
        if required.is_none() {
            assert(unexpected(bs, rs, binding_key(bs[i as int])));
            let better = match best {
                None => true,
                Some(k) => compare_pair(b.component.as_str(), b.input.as_str(), bindings[k].component.as_str(), bindings[k].input.as_str()),
            };
            if better {
                proof {
                    assert forall|t: int| 0 <= t < i + 1 && unexpected(bs, rs, binding_key(#[trigger] bs[t])) implies !pair_lt(
                        binding_key(bs[t]),
                        binding_key(bs[i as int]),
                    ) by {
                        lemma_pair_total(binding_key(bs[t]), binding_key(bs[i as int]));
                        if t < i {
                            let k = best->0;
                            if pair_lt(binding_key(bs[t]), binding_key(bs[i as int])) {
                                lemma_pair_total(binding_key(bs[t]), binding_key(bs[k as int]));
                                lemma_pair_total(binding_key(bs[k as int]), binding_key(bs[i as int]));
                                if pair_lt(binding_key(bs[k as int]), binding_key(bs[t])) {
                                    lemma_pair_transitive(binding_key(bs[k as int]), binding_key(bs[t]), binding_key(bs[i as int]));
                                }
                            }
                        }
                    }
                }
                best = Some(i);
            } else {
                proof {
                    let k = best->0;
                    lemma_pair_total(binding_key(bs[i as int]), binding_key(bs[k as int]));
                }
            }
        }
        i = i + 1;
    }
    if let Some(k) = best {
        proof {
            assert forall|key: (Seq<char>, Seq<char>)| #[trigger] unexpected(bs, rs, key) implies !pair_lt(key, binding_key(bs[k as int])) by {
                let t = choose|t: int| 0 <= t < bs.len() && binding_key(bs[t]) == key;
            }
        }
        return Err(OperationError::UnexpectedArtifact { component: bindings[k].component.clone(), input: bindings[k].input.clone() });
    }
    assert forall|key: (Seq<char>, Seq<char>)| !unexpected(bs, rs, key) by {
        if unexpected(bs, rs, key) {
            let t = choose|t: int| 0 <= t < bs.len() && binding_key(bs[t]) == key;
        }
    }
    // The least missing requirement.
    let m = requirements.len();
    let mut best: Option<usize> = None;
    let mut i: usize = 0;
    while i < m
        invariant
            m == rs.len(),
            bs == bindings@,
            rs == requirements@,
            i <= m,
            best matches Some(b) ==> b < i && missing(bs, rs, requirement_key(rs[b as int])),
            forall|t: int| 0 <= t < i && missing(bs, rs, requirement_key(#[trigger] rs[t])) ==> (best matches Some(b) && !pair_lt(
                requirement_key(rs[t]),
                requirement_key(rs[b as int]),
            )),
        decreases m - i,
    {
        let q = &requirements[i];
        let present = find_binding_for(bindings, q.component.as_str(), q.input.as_str());
        let required = find_requirement(requirements, q.component.as_str(), q.input.as_str());
        proof {
            if required.is_none() {
                assert(required_kind(rs, requirement_key(rs[i as int])) is None);
                assert(rs.take(i as int + 1).last() == rs[i as int]);
                lemma_required_present(rs, i as int);
            }
        }
        if present.is_none() {
            proof {
                lemma_required_present(rs, i as int);
            }
            assert(missing(bs, rs, requirement_key(rs[i as int])));
            let better = match best {
                None => true,
                Some(k) => compare_pair(q.component.as_str(), q.input.as_str(), requirements[k].component.as_str(), requirements[k].input.as_str()),
            };
            if better {
                proof {
                    assert forall|t: int| 0 <= t < i + 1 && missing(bs, rs, requirement_key(#[trigger] rs[t])) implies !pair_lt(
                        requirement_key(rs[t]),
                        requirement_key(rs[i as int]),
                    ) by {
                        lemma_pair_total(requirement_key(rs[t]), requirement_key(rs[i as int]));
                        if t < i {
                            let k = best->0;
                            if pair_lt(requirement_key(rs[t]), requirement_key(rs[i as int])) {
                                lemma_pair_total(requirement_key(rs[t]), requirement_key(rs[k as int]));
                                lemma_pair_total(requirement_key(rs[k as int]), requirement_key(rs[i as int]));
                                if pair_lt(requirement_key(rs[k as int]), requirement_key(rs[t])) {
                                    lemma_pair_transitive(requirement_key(rs[k as int]), requirement_key(rs[t]), requirement_key(rs[i as int]));
                                }
                            }
                        }
                    }
                }
                best = Some(i);
            } else {
                proof {
                    let k = best->0;
                    lemma_pair_total(requirement_key(rs[i as int]), requirement_key(rs[k as int]));
                }
            }
        }
        i = i + 1;
    }
    if let Some(k) = best {
        proof {
            assert forall|key: (Seq<char>, Seq<char>)| #[trigger] missing(bs, rs, key) implies !pair_lt(key, requirement_key(rs[k as int])) by {
                lemma_required_key_exists(rs, key);
                let t = choose|t: int| 0 <= t < rs.len() && requirement_key(rs[t]) == key;
            }
        }
        return Err(OperationError::MissingArtifact { component: requirements[k].component.clone(), input: requirements[k].input.clone() });
    }
    assert forall|key: (Seq<char>, Seq<char>)| !missing(bs, rs, key) by {
        if missing(bs, rs, key) {
            lemma_required_key_exists(rs, key);
            let t = choose|t: int| 0 <= t < rs.len() && requirement_key(rs[t]) == key;
        }
    }
    // The least mismatched requirement.
    let mut best: Option<(usize, WorkloadArtifactKind, WorkloadArtifactKind)> = None;
    let mut i: usize = 0;
    while i < m
        invariant
            m == rs.len(),
            bs == bindings@,
            rs == requirements@,
            i <= m,
            best matches Some((b, e, a)) ==> b < i && mismatched(bs, rs, requirement_key(rs[b as int])) && required_kind(
                rs,
                requirement_key(rs[b as int]),
            ) == Some(e) && bound_kind(bs, requirement_key(rs[b as int])) == Some(a),
            forall|t: int| 0 <= t < i && mismatched(bs, rs, requirement_key(#[trigger] rs[t])) ==> (best matches Some((b, _, _))
                && !pair_lt(requirement_key(rs[t]), requirement_key(rs[b as int]))),
            forall|key: (Seq<char>, Seq<char>)| !missing(bs, rs, key),
        decreases m - i,
    {
        let q = &requirements[i];
        let required = find_requirement(requirements, q.component.as_str(), q.input.as_str());
        let present = find_binding_for(bindings, q.component.as_str(), q.input.as_str());
        proof {
            lemma_required_present(rs, i as int);
        }
        match (required, present) {
            (Some(x), Some(y)) => {
                let expected = requirements[x].kind;
                let actual = bindings[y].kind;
                if expected != actual {
                    assert(mismatched(bs, rs, requirement_key(rs[i as int])));
                    let better = match best {
                        None => true,
                        Some((k, _, _)) => compare_pair(q.component.as_str(), q.input.as_str(), requirements[k].component.as_str(), requirements[k].input.as_str()),
                    };
                    if better {
                        proof {
                            assert forall|t: int| 0 <= t < i + 1 && mismatched(bs, rs, requirement_key(#[trigger] rs[t])) implies !pair_lt(
                                requirement_key(rs[t]),
                                requirement_key(rs[i as int]),
                            ) by {
                                lemma_pair_total(requirement_key(rs[t]), requirement_key(rs[i as int]));
                                if t < i {
                                    let tup = best->0;
                                    let k = tup.0;
                                    if pair_lt(requirement_key(rs[t]), requirement_key(rs[i as int])) {
                                        lemma_pair_total(requirement_key(rs[t]), requirement_key(rs[k as int]));
                                        lemma_pair_total(requirement_key(rs[k as int]), requirement_key(rs[i as int]));
                                        if pair_lt(requirement_key(rs[k as int]), requirement_key(rs[t])) {
                                            lemma_pair_transitive(requirement_key(rs[k as int]), requirement_key(rs[t]), requirement_key(rs[i as int]));
                                        }
                                    }
                                }
                            }
                        }
                        best = Some((i, expected, actual));
                    } else {
                        proof {
                            let tup = best->0;
                                    let k = tup.0;
                            lemma_pair_total(requirement_key(rs[i as int]), requirement_key(rs[k as int]));
                        }
                    }
                } else {
                    assert(!mismatched(bs, rs, requirement_key(rs[i as int])));
                }
            },
            (Some(_), None) => {
                assert(missing(bs, rs, requirement_key(rs[i as int])));
            },
            (None, _) => {},
        }
        i = i + 1;
    }
    if let Some((k, expected, actual)) = best {
        proof {
            assert forall|key: (Seq<char>, Seq<char>)| #[trigger] mismatched(bs, rs, key) implies !pair_lt(key, requirement_key(rs[k as int])) by {
                lemma_required_key_exists(rs, key);
                let t = choose|t: int| 0 <= t < rs.len() && requirement_key(rs[t]) == key;
            }
        }
        return Err(OperationError::IncompatibleArtifact {
            component: requirements[k].component.clone(),
            input: requirements[k].input.clone(),
            expected,
            actual,
        });
    }
    assert forall|key: (Seq<char>, Seq<char>)| !mismatched(bs, rs, key) by {
        if mismatched(bs, rs, key) {
            lemma_required_key_exists(rs, key);
            let t = choose|t: int| 0 <= t < rs.len() && requirement_key(rs[t]) == key;
        }
    }
    Ok(())
}

proof fn lemma_required_present(rs: Seq<ArtifactRequirement>, i: int)
    requires
        0 <= i < rs.len(),
    ensures
        required_kind(rs, requirement_key(rs[i])) is Some,
    decreases rs.len(),
{
    if requirement_key(rs.last()) != requirement_key(rs[i]) {
        let rest = rs.drop_last();
        assert(i < rs.len() - 1);
        assert(rest[i] == rs[i]);
        lemma_required_present(rest, i);
    }
}

proof fn lemma_required_key_exists(rs: Seq<ArtifactRequirement>, key: (Seq<char>, Seq<char>))
    requires
        required_kind(rs, key) is Some,
    ensures
        exists|t: int| 0 <= t < rs.len() && requirement_key(rs[t]) == key,
    decreases rs.len(),
{
    if requirement_key(rs.last()) != key {
        let rest = rs.drop_last();
        lemma_required_key_exists(rest, key);
        let t = choose|t: int| 0 <= t < rest.len() && requirement_key(rest[t]) == key;
        assert(rs[t] == rest[t]);
    } else {
        assert(requirement_key(rs[rs.len() - 1]) == key);
    }
}


/// A graph operation: the core client, the bundler, the artifact builder,
/// the checkout service, and the directory bundles are written to.
pub struct GraphOperation<C, B, A, K> {
    core: C,
    bundler: B,
    artifacts: A,
    checkouts: K,
    bundle_root: String,
}

impl<C, B, A, K> GraphOperation<C, B, A, K> {
    /// The directory bundles are written to.
    pub closed spec fn bundle_root_view(&self) -> Seq<char> {
        self.bundle_root@
    }

    /// The core client.
    pub closed spec fn core_view(&self) -> C {
        self.core
    }

    /// An operation over the given services, writing bundles under
    /// `bundle_root`.
    pub fn new(core: C, bundler: B, artifacts: A, checkouts: K, bundle_root: String) -> (operation: Self)
        ensures
            operation.bundle_root_view() == bundle_root@,
            operation.core_view() == core,
    {
        GraphOperation { core, bundler, artifacts, checkouts, bundle_root }
    }

    /// The services and the bundle directory, to run the operation's steps.
    pub fn parts(&self) -> (parts: (&C, &B, &A, &K, &str))
        ensures
            *parts.0 == self.core_view(),
            parts.4@ == self.bundle_root_view(),
    {
        (&self.core, &self.bundler, &self.artifacts, &self.checkouts, self.bundle_root.as_str())
    }
}

} // verus!

verus! {

/// What deploys: two pins of the same component with the same bundle and
/// the same bindings deploy the same thing whatever their sources; pins
/// with other bundles, or that bind some input to another digest, do not.
/// A component changes when it is added or removed, and never when its
/// deployed pin and its desired pin are the same.
pub proof fn law_deployable_pins(a: BundlePin, b: BundlePin, input: Seq<char>, current: Seq<BundlePin>, desired: Seq<BundlePin>, c: Seq<char>)
    ensures
        a.component@ == b.component@ && a.bundle == b.bundle && a.input_bindings@ == b.input_bindings@ ==> same_pin(a, b),
        a.bundle != b.bundle ==> !same_pin(a, b),
        a.component@ != b.component@ ==> !same_pin(a, b),
        binding_of(a.input_bindings@, input) != binding_of(b.input_bindings@, input) ==> !same_pin(a, b),
        pin_of(current, c) is None && pin_of(desired, c) is Some ==> component_changes(current, desired, c),
        pin_of(current, c) is Some && pin_of(desired, c) is None ==> component_changes(current, desired, c),
        pin_of(current, c) is None && pin_of(desired, c) is None ==> !component_changes(current, desired, c),
        pin_of(current, c) == pin_of(desired, c) ==> !component_changes(current, desired, c),
{
}

} // verus!

verus! {

/// The digest an input is bound to is that of its last binding: appending
/// a binding of an input rebinds it, and leaves every other input as it
/// was; an input without a binding is unbound.
pub proof fn law_last_binding_wins(bindings: Seq<(String, String)>, b: (String, String), input: Seq<char>)
    ensures
        binding_of(bindings.push(b), b.0@) == Some(b.1@),
        input != b.0@ ==> binding_of(bindings.push(b), input) == binding_of(bindings, input),
        binding_of(Seq::<(String, String)>::empty(), input) is None,
{
    assert(bindings.push(b).drop_last() =~= bindings);
}

} // verus!
