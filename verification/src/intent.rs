//! Applying a graph from sources: which bundles of a checked-out source a
//! request takes, the pins they become, and whether the graph is created,
//! updated or left as it is.

use vstd::prelude::*;
use vstd::seq_lib::{to_multiset_build, to_multiset_insert};

use crate::digest::{be_u128, be_value, hex_decode, hex_decode_failure, hex_decoded};
use crate::fmt::{decimal, decimal_text};
use crate::operation::{
    binding_key, changed_component_names, compare_pair, component_changes, deployed_pins, lemma_pair_total,
    lemma_pair_transitive, pair_lt, same_deployable_pins, same_pins, ArtifactBinding, ArtifactRequirement, BundlePin,
    GraphStatus, OperationError,
};
use crate::resource::ContentDigest;
use crate::text::{chars_lt, compare_text, lemma_chars_lt_total, text_equal, Precedence};
use crate::textset::TextSet;

verus! {

// === Selecting bundles ===

/// A bundle that a source produced: its component, its digest as
/// hexadecimal text, the artifacts it requires and the files it was built
/// from.
#[derive(Debug)]
pub struct SourceBundle {
    pub component: String,
    pub bundle_id: String,
    pub artifact_requirements: Vec<ArtifactRequirement>,
    pub dependencies: Vec<String>,
}

/// The positions of the bundles a request takes: every bundle, or those of
/// the requested component.
pub open spec fn selected(bundles: Seq<SourceBundle>, component: Option<Seq<char>>) -> Seq<usize>
    decreases bundles.len(),
{
    if bundles.len() == 0 {
        Seq::empty()
    } else {
        let before = selected(bundles.drop_last(), component);
        if component is None || component == Some(bundles.last().component@) {
            before.push((bundles.len() - 1) as usize)
        } else {
            before
        }
    }
}

/// An optional text as plain values.
pub open spec fn text_option(o: Option<String>) -> Option<Seq<char>> {
    match o {
        Some(s) => Some(s@),
        None => None,
    }
}

proof fn lemma_selected_bounds(bundles: Seq<SourceBundle>, component: Option<Seq<char>>)
    requires
        bundles.len() <= usize::MAX,
    ensures
        forall|i: int| 0 <= i < selected(bundles, component).len() ==> #[trigger] selected(bundles, component)[i] < bundles.len(),
    decreases bundles.len(),
{
    if bundles.len() > 0 {
        let before = selected(bundles.drop_last(), component);
        lemma_selected_bounds(bundles.drop_last(), component);
        assert forall|i: int| 0 <= i < selected(bundles, component).len() implies #[trigger] selected(bundles, component)[i] < bundles.len() by {
            if i < before.len() {
                assert(selected(bundles, component)[i] == before[i]);
            }
        }
    }
}

/// The bundles of a source that a request takes, by position: all of them,
/// or those of the requested component, which must then be there.
pub fn select_bundles(bundles: &Vec<SourceBundle>, component: &Option<String>) -> (r: Result<Vec<usize>, OperationError>)
    ensures
        r is Err <==> (component is Some && selected(bundles@, text_option(*component)).len() == 0),
        r matches Ok(s) ==> s@ == selected(bundles@, text_option(*component)),
        r matches Err(e) ==> (e matches OperationError::MissingComponent(c) && Some(c@) == text_option(*component)),
        forall|i: int| 0 <= i < selected(bundles@, text_option(*component)).len() ==> #[trigger] selected(bundles@, text_option(*component))[i] < bundles@.len(),
{
    let ghost c = text_option(*component);
    let n = bundles.len();
    proof {
        lemma_selected_bounds(bundles@, c);
    }
    let mut out: Vec<usize> = Vec::new();
    let mut i: usize = 0;
    while i < n
        invariant
            n == bundles@.len(),
            c == text_option(*component),
            i <= n,
            out@ == selected(bundles@.take(i as int), c),
        decreases n - i,
    {
        proof {
            assert(bundles@.take(i + 1).drop_last() =~= bundles@.take(i as int));
            assert(bundles@.take(i + 1).last() == bundles@[i as int]);
        }
        let take = match component {
            None => true,
            Some(name) => text_equal(bundles[i].component.as_str(), name.as_str()),
        };
        if take {
            out.push(i);
        }
        i = i + 1;
    }
    assert(bundles@.take(n as int) =~= bundles@);
    match component {
        Some(name) => {
            if out.len() == 0 {
                return Err(OperationError::MissingComponent(name.clone()));
            }
        },
        None => {},
    }
    Ok(out)
}

/// The artifact requirements of the bundles at positions `sel`, in order.
pub open spec fn requirements_of(bundles: Seq<SourceBundle>, sel: Seq<usize>) -> Seq<ArtifactRequirement>
    decreases sel.len(),
{
    if sel.len() == 0 {
        Seq::empty()
    } else {
        requirements_of(bundles, sel.drop_last()) + bundles[sel.last() as int].artifact_requirements@
    }
}

fn copy_requirement(r: &ArtifactRequirement) -> (c: ArtifactRequirement)
    ensures
        c == *r,
{
    ArtifactRequirement {
        component: r.component.clone(),
        input: r.input.clone(),
        kind: r.kind,
        path: r.path.clone(),
        source_path: r.source_path.clone(),
        line: r.line,
        column: r.column,
    }
}

/// The artifact requirements of the bundles at positions `sel`, in order.
pub fn selected_requirements(bundles: &Vec<SourceBundle>, sel: &Vec<usize>) -> (out: Vec<ArtifactRequirement>)
    requires
        forall|i: int| 0 <= i < sel@.len() ==> #[trigger] sel@[i] < bundles@.len(),
    ensures
        out@ == requirements_of(bundles@, sel@),
{
    let mut out: Vec<ArtifactRequirement> = Vec::new();
    let m = sel.len();
    let mut k: usize = 0;
    while k < m
        invariant
            m == sel@.len(),
            forall|i: int| 0 <= i < sel@.len() ==> #[trigger] sel@[i] < bundles@.len(),
            k <= m,
            out@ == requirements_of(bundles@, sel@.take(k as int)),
        decreases m - k,
    {
        let b = sel[k];
        assert(b < bundles@.len());
        let reqs = &bundles[b].artifact_requirements;
        let ghost before = out@;
        let r = reqs.len();
        let mut j: usize = 0;
        while j < r
            invariant
                r == reqs@.len(),
                j <= r,
                out@ == before + reqs@.take(j as int),
            decreases r - j,
        {
            out.push(copy_requirement(&reqs[j]));
            assert(out@ =~= before + reqs@.take(j + 1));
            j = j + 1;
        }
        proof {
            assert(reqs@.take(r as int) =~= reqs@);
            assert(sel@.take(k + 1).drop_last() =~= sel@.take(k as int));
            assert(sel@.take(k + 1).last() == b);
        }
        k = k + 1;
    }
    assert(sel@.take(m as int) =~= sel@);
    out
}

// === Bundle digests ===

/// The digest that hexadecimal text `s` spells, or why it spells none: it
/// must decode, to exactly thirty-two bytes.
pub open spec fn parsed_digest(s: Seq<char>) -> Result<ContentDigest, Seq<char>> {
    match hex_decoded(s) {
        None => Err(hex_decode_failure(s)),
        Some(bytes) => if bytes.len() != 32 {
            Err("bundle digest must contain 32 bytes, got "@ + decimal(bytes.len()))
        } else {
            Ok(ContentDigest { high: be_value(bytes.subrange(0, 16)) as u128, low: be_value(bytes.subrange(16, 32)) as u128 })
        },
    }
}

/// Parses a bundle digest as `parsed_digest` states.
pub fn parse_content_digest(value: &str) -> (r: Result<ContentDigest, OperationError>)
    ensures
        r matches Ok(d) ==> parsed_digest(value@) == Ok::<ContentDigest, Seq<char>>(d),
        r matches Err(e) ==> (e matches OperationError::InvalidBundleDomain(m) && parsed_digest(value@) == Err::<ContentDigest, Seq<char>>(m@)),
{
    match hex_decode(value) {
        Err(message) => Err(OperationError::InvalidBundleDomain(message)),
        Ok(bytes) => {
            if bytes.len() != 32 {
                let mut message = String::from_str("bundle digest must contain 32 bytes, got ");
                let count = decimal_text(bytes.len() as u64);
                message.append(count.as_str());
                return Err(OperationError::InvalidBundleDomain(message));
            }
            let high = be_u128(bytes.as_slice(), 0);
            let low = be_u128(bytes.as_slice(), 16);
            Ok(ContentDigest { high, low })
        },
    }
}

// === Pinning the bundles of a source ===

/// A pin as plain values: component, bundle digest, input bindings and
/// source.
pub open spec fn pin_view(p: BundlePin) -> (Seq<char>, ContentDigest, Seq<(String, String)>, Option<Seq<char>>) {
    (p.component@, p.bundle, p.input_bindings@, text_option(p.source))
}

/// Pins as plain values.
pub open spec fn pins_view(p: Seq<BundlePin>) -> Seq<(Seq<char>, ContentDigest, Seq<(String, String)>, Option<Seq<char>>)> {
    p.map_values(|x: BundlePin| pin_view(x))
}

/// The components of pins given as plain values.
pub open spec fn pinned_components(p: Seq<(Seq<char>, ContentDigest, Seq<(String, String)>, Option<Seq<char>>)>) -> Set<Seq<char>> {
    Set::new(|c: Seq<char>| exists|i: int| 0 <= i < p.len() && p[i].0 == c)
}

/// The artifact digests built for `component`, as (input, digest) pairs in
/// the order the bindings come in.
pub open spec fn bindings_of_component(bindings: Seq<ArtifactBinding>, component: Seq<char>) -> Seq<(String, String)>
    decreases bindings.len(),
{
    if bindings.len() == 0 {
        Seq::empty()
    } else {
        let before = bindings_of_component(bindings.drop_last(), component);
        let b = bindings.last();
        if b.component@ == component {
            before.push((b.input, b.digest))
        } else {
            before
        }
    }
}

/// Why the bundles of a source cannot be pinned.
pub enum PinFault {
    /// Another source, or this one, already produced the component.
    Duplicate(Seq<char>),
    /// The bundle's digest is not thirty-two bytes of hexadecimal text.
    Invalid(Seq<char>),
}

/// The pins of the bundles at positions `sel`, in order, when the
/// components in `names` are already taken: each pins its component to its
/// digest with the artifact digests built for the component and the
/// source's provenance. The first bundle whose component is taken, or whose
/// digest does not parse, fails the whole source.
pub open spec fn pinned(
    bundles: Seq<SourceBundle>,
    sel: Seq<usize>,
    bindings: Seq<ArtifactBinding>,
    provenance: Seq<char>,
    names: Set<Seq<char>>,
) -> Result<Seq<(Seq<char>, ContentDigest, Seq<(String, String)>, Option<Seq<char>>)>, PinFault>
    decreases sel.len(),
{
    if sel.len() == 0 {
        Ok(Seq::empty())
    } else {
        match pinned(bundles, sel.drop_last(), bindings, provenance, names) {
            Err(f) => Err(f),
            Ok(pins) => {
                let b = bundles[sel.last() as int];
                if names.contains(b.component@) || pinned_components(pins).contains(b.component@) {
                    Err(PinFault::Duplicate(b.component@))
                } else {
                    match parsed_digest(b.bundle_id@) {
                        Err(m) => Err(PinFault::Invalid(m)),
                        Ok(d) => Ok(pins.push((b.component@, d, bindings_of_component(bindings, b.component@), Some(provenance)))),
                    }
                }
            },
        }
    }
}

proof fn lemma_pinned_stops(
    bundles: Seq<SourceBundle>,
    sel: Seq<usize>,
    bindings: Seq<ArtifactBinding>,
    provenance: Seq<char>,
    names: Set<Seq<char>>,
    k: int,
)
    requires
        0 <= k <= sel.len(),
        pinned(bundles, sel.take(k), bindings, provenance, names) is Err,
    ensures
        pinned(bundles, sel, bindings, provenance, names) == pinned(bundles, sel.take(k), bindings, provenance, names),
    decreases sel.len(),
{
    if k == sel.len() {
        assert(sel.take(k) =~= sel);
    } else {
        assert(sel.drop_last().take(k) =~= sel.take(k));
        lemma_pinned_stops(bundles, sel.drop_last(), bindings, provenance, names, k);
    }
}

/// The files the bundles at positions `sel` were built from.
pub open spec fn dependencies_of(bundles: Seq<SourceBundle>, sel: Seq<usize>) -> Set<Seq<char>> {
    Set::new(|d: Seq<char>| exists|i: int, j: int|
        0 <= i < sel.len() && 0 <= j < bundles[sel[i] as int].dependencies@.len() && bundles[sel[i] as int].dependencies@[j]@ == d)
}

fn component_bindings(bindings: &Vec<ArtifactBinding>, component: &str) -> (out: Vec<(String, String)>)
    ensures
        out@ == bindings_of_component(bindings@, component@),
{
    let mut out: Vec<(String, String)> = Vec::new();
    let n = bindings.len();
    let mut i: usize = 0;
    while i < n
        invariant
            n == bindings@.len(),
            i <= n,
            out@ == bindings_of_component(bindings@.take(i as int), component@),
        decreases n - i,
    {
        proof {
            assert(bindings@.take(i + 1).drop_last() =~= bindings@.take(i as int));
            assert(bindings@.take(i + 1).last() == bindings@[i as int]);
        }
        if text_equal(bindings[i].component.as_str(), component) {
            out.push((bindings[i].input.clone(), bindings[i].digest.clone()));
        }
        i = i + 1;
    }
    assert(bindings@.take(n as int) =~= bindings@);
    out
}

/// Pins the bundles of one source at positions `sel`, as `pinned` states,
/// appending the pins to `pins`, their components to `names` and the files
/// they were built from to `dependencies`.
pub fn pin_source(
    bundles: &Vec<SourceBundle>,
    sel: &Vec<usize>,
    bindings: &Vec<ArtifactBinding>,
    provenance: &String,
    names: &mut TextSet,
    pins: &mut Vec<BundlePin>,
    dependencies: &mut TextSet,
) -> (r: Result<(), OperationError>)
    requires
        forall|i: int| 0 <= i < sel@.len() ==> #[trigger] sel@[i] < bundles@.len(),
    ensures
        r is Ok <==> pinned(bundles@, sel@, bindings@, provenance@, old(names)@) is Ok,
        r is Ok ==> pins_view(final(pins)@) == pins_view(old(pins)@) + pinned(bundles@, sel@, bindings@, provenance@, old(names)@)->Ok_0,
        r is Ok ==> final(names)@ == old(names)@ + pinned_components(pinned(bundles@, sel@, bindings@, provenance@, old(names)@)->Ok_0),
        r is Ok ==> final(dependencies)@ == old(dependencies)@ + dependencies_of(bundles@, sel@),
        r matches Err(e) ==> match e {
            OperationError::DuplicateComponent(c) => pinned(bundles@, sel@, bindings@, provenance@, old(names)@) == Err::<
                Seq<(Seq<char>, ContentDigest, Seq<(String, String)>, Option<Seq<char>>)>,
                PinFault,
            >(PinFault::Duplicate(c@)),
            OperationError::InvalidBundleDomain(m) => pinned(bundles@, sel@, bindings@, provenance@, old(names)@) == Err::<
                Seq<(Seq<char>, ContentDigest, Seq<(String, String)>, Option<Seq<char>>)>,
                PinFault,
            >(PinFault::Invalid(m@)),
            _ => false,
        },
{
    let ghost names0 = names@;
    let ghost pins0 = pins_view(pins@);
    let ghost deps0 = dependencies@;
    let m = sel.len();
    let mut k: usize = 0;
    assert(pins_view(pins@) =~= pins0 + Seq::empty());
    assert(names@ =~= names0 + pinned_components(Seq::empty()));
    assert(dependencies@ =~= deps0 + dependencies_of(bundles@, sel@.take(0)));
    while k < m
        invariant
            m == sel@.len(),
            forall|i: int| 0 <= i < sel@.len() ==> #[trigger] sel@[i] < bundles@.len(),
            k <= m,
            names0 == old(names)@,
            pins0 == pins_view(old(pins)@),
            deps0 == old(dependencies)@,
            pinned(bundles@, sel@.take(k as int), bindings@, provenance@, names0) is Ok,
            pins_view(pins@) == pins0 + pinned(bundles@, sel@.take(k as int), bindings@, provenance@, names0)->Ok_0,
            names@ == names0 + pinned_components(pinned(bundles@, sel@.take(k as int), bindings@, provenance@, names0)->Ok_0),
            dependencies@ == deps0 + dependencies_of(bundles@, sel@.take(k as int)),
        decreases m - k,
    {
        let b = sel[k];
        let ghost t = sel@.take(k + 1);
        let ghost before = pinned(bundles@, sel@.take(k as int), bindings@, provenance@, names0)->Ok_0;
        proof {
            assert(t.drop_last() =~= sel@.take(k as int));
            assert(t.last() == b);
        }
        let bundle = &bundles[b];
        if names.contains(bundle.component.as_str()) {
            proof {
                assert(bundles@[t.last() as int] == *bundle);
                assert(names0.contains(bundle.component@) || pinned_components(before).contains(bundle.component@));
                assert(pinned(bundles@, t, bindings@, provenance@, names0) == Err::<
                    Seq<(Seq<char>, ContentDigest, Seq<(String, String)>, Option<Seq<char>>)>,
                    PinFault,
                >(PinFault::Duplicate(bundle.component@)));
                lemma_pinned_stops(bundles@, sel@, bindings@, provenance@, names0, k + 1);
                assert(pinned(bundles@, sel@, bindings@, provenance@, names0) == Err::<
                    Seq<(Seq<char>, ContentDigest, Seq<(String, String)>, Option<Seq<char>>)>,
                    PinFault,
                >(PinFault::Duplicate(bundle.component@)));
            }
            let c = bundle.component.clone();
            assert(c@ == bundle.component@);
            return Err(OperationError::DuplicateComponent(c));
        }
        let digest = match parse_content_digest(bundle.bundle_id.as_str()) {
            Ok(d) => d,
            Err(e) => {
                proof {
                    lemma_pinned_stops(bundles@, sel@, bindings@, provenance@, names0, k + 1);
                }
                return Err(e);
            },
        };
        names.insert(bundle.component.clone());
        let pin = BundlePin {
            component: bundle.component.clone(),
            bundle: digest,
            input_bindings: component_bindings(bindings, bundle.component.as_str()),
            source: Some(provenance.clone()),
        };
        let ghost pv = pin_view(pin);
        let ghost pins_before = pins@;
        pins.push(pin);
        proof {
            assert(pins_view(pins@) =~= pins_view(pins_before).push(pv));
            assert(pinned(bundles@, t, bindings@, provenance@, names0) == Ok::<
                Seq<(Seq<char>, ContentDigest, Seq<(String, String)>, Option<Seq<char>>)>,
                PinFault,
            >(before.push(pv)));
            assert(pins_view(pins@) =~= pins0 + before.push(pv));
            assert forall|c: Seq<char>| pinned_components(before.push(pv)).contains(c) <==> (pinned_components(before).contains(c) || c == pv.0) by {
                if pinned_components(before.push(pv)).contains(c) {
                    let i = choose|i: int| 0 <= i < before.push(pv).len() && before.push(pv)[i].0 == c;
                    if i < before.len() {
                        assert(before[i].0 == c);
                    }
                }
                if pinned_components(before).contains(c) {
                    let i = choose|i: int| 0 <= i < before.len() && before[i].0 == c;
                    assert(before.push(pv)[i].0 == c);
                }
                if c == pv.0 {
                    assert(before.push(pv)[before.len() as int].0 == c);
                }
            }
            assert(names@ =~= names0 + pinned_components(before.push(pv)));
        }
        let deps = &bundle.dependencies;
        let ghost deps_before = dependencies@;
        let d = deps.len();
        let mut j: usize = 0;
        while j < d
            invariant
                d == deps@.len(),
                j <= d,
                dependencies@ == deps_before + Set::new(|x: Seq<char>| exists|q: int| 0 <= q < j && deps@[q]@ == x),
            decreases d - j,
        {
            let ghost prev = dependencies@;
            dependencies.insert(deps[j].clone());
            proof {
                assert forall|x: Seq<char>| dependencies@.contains(x) <==> (deps_before + Set::new(|y: Seq<char>| exists|q: int| 0 <= q < j + 1 && deps@[q]@ == y)).contains(x) by {
                    if x == deps@[j as int]@ {
                        assert(exists|q: int| 0 <= q < j + 1 && deps@[q]@ == x);
                    }
                    if (exists|q: int| 0 <= q < j + 1 && deps@[q]@ == x) {
                        let q = choose|q: int| 0 <= q < j + 1 && deps@[q]@ == x;
                        if q < j {
                            assert(exists|q2: int| 0 <= q2 < j && deps@[q2]@ == x);
                        }
                    }
                }
                assert(dependencies@ =~= deps_before + Set::new(|y: Seq<char>| exists|q: int| 0 <= q < j + 1 && deps@[q]@ == y));
            }
            j = j + 1;
        }
        proof {
            assert forall|x: Seq<char>| dependencies@.contains(x) <==> (deps0 + dependencies_of(bundles@, t)).contains(x) by {
                if dependencies_of(bundles@, t).contains(x) {
                    let (i, q) = choose|i: int, q: int|
                        0 <= i < t.len() && 0 <= q < bundles@[t[i] as int].dependencies@.len() && bundles@[t[i] as int].dependencies@[q]@ == x;
                    if i < k {
                        assert(sel@.take(k as int)[i] == t[i]);
                        assert(dependencies_of(bundles@, sel@.take(k as int)).contains(x));
                    } else {
                        assert(exists|q2: int| 0 <= q2 < d && deps@[q2]@ == x);
                    }
                }
                if dependencies_of(bundles@, sel@.take(k as int)).contains(x) {
                    let (i, q) = choose|i: int, q: int|
                        0 <= i < sel@.take(k as int).len() && 0 <= q < bundles@[sel@.take(k as int)[i] as int].dependencies@.len()
                            && bundles@[sel@.take(k as int)[i] as int].dependencies@[q]@ == x;
                    assert(t[i] == sel@.take(k as int)[i]);
                    assert(dependencies_of(bundles@, t).contains(x));
                }
                if (exists|q: int| 0 <= q < d && deps@[q]@ == x) {
                    let q = choose|q: int| 0 <= q < d && deps@[q]@ == x;
                    assert(t[k as int] == b);
                    assert(dependencies_of(bundles@, t).contains(x));
                }
            }
            assert(dependencies@ =~= deps0 + dependencies_of(bundles@, t));
        }
        k = k + 1;
    }
    assert(sel@.take(m as int) =~= sel@);
    Ok(())
}

// === Ordering pins and artifacts ===

/// Each key comes no earlier than the one before it.
pub open spec fn sorted_keys(k: Seq<(Seq<char>, Seq<char>)>) -> bool {
    forall|i: int, j: int| 0 <= i < j < k.len() ==> !pair_lt(k[j], k[i])
}

/// The key a pin is ordered by: its component.
pub open spec fn pin_key(p: BundlePin) -> (Seq<char>, Seq<char>) {
    (p.component@, Seq::empty())
}

proof fn lemma_insert_sorted(k: Seq<(Seq<char>, Seq<char>)>, pos: int, x: (Seq<char>, Seq<char>))
    requires
        sorted_keys(k),
        0 <= pos <= k.len(),
        forall|i: int| 0 <= i < pos ==> !pair_lt(x, #[trigger] k[i]),
        pos < k.len() ==> pair_lt(x, k[pos]),
    ensures
        sorted_keys(k.insert(pos, x)),
{
    let n = k.insert(pos, x);
    assert forall|i: int, j: int| 0 <= i < j < n.len() implies !pair_lt(n[j], n[i]) by {
        if i == pos && j > pos {
            if pair_lt(k[j - 1], x) {
                lemma_pair_transitive(k[j - 1], x, k[pos]);
                if j - 1 == pos {
                    lemma_pair_total(k[pos], k[pos]);
                }
            }
        }
    }
}

/// Orders pins by component, keeping the order of pins of one component.
pub fn sort_pins(pins: Vec<BundlePin>) -> (out: Vec<BundlePin>)
    ensures
        sorted_keys(out@.map_values(|p: BundlePin| pin_key(p))),
        out@.to_multiset() == pins@.to_multiset(),
        pins_view(out@).to_multiset() == pins_view(pins@).to_multiset(),
{
    let ghost all = pins@;
    let total = pins.len();
    let mut rest = pins;
    let mut out: Vec<BundlePin> = Vec::new();
    let mut done: usize = 0;
    assert(all.skip(0) =~= all);
    assert(all.take(0) =~= out@);
    while rest.len() > 0
        invariant
            total == all.len(),
            done + rest@.len() == all.len(),
            rest@ == all.skip(done as int),
            pins_view(out@).to_multiset() == pins_view(all.take(done as int)).to_multiset(),
            sorted_keys(out@.map_values(|p: BundlePin| pin_key(p))),
            out@.to_multiset() == all.take(done as int).to_multiset(),
        decreases rest@.len(),
    {
        let p = rest.remove(0);
        proof {
            assert(all.skip(done as int)[0] == p);
            assert(all.skip(done as int).drop_first() =~= all.skip(done + 1));
            assert(all.take(done + 1) =~= all.take(done as int).push(p));
        }
        let ghost keys = out@.map_values(|q: BundlePin| pin_key(q));
        let mut pos: usize = 0;
        while pos < out.len() && compare_text(out[pos].component.as_str(), p.component.as_str()) != Precedence::After
            invariant
                pos <= out@.len(),
                keys == out@.map_values(|q: BundlePin| pin_key(q)),
                forall|i: int| 0 <= i < pos ==> !pair_lt(pin_key(p), #[trigger] keys[i]),
            decreases out@.len() - pos,
        {
            proof {
                lemma_chars_lt_total(out@[pos as int].component@, p.component@);
                assert(keys[pos as int] == pin_key(out@[pos as int]));
            }
            pos = pos + 1;
        }
        proof {
            if pos < out@.len() {
                assert(keys[pos as int] == pin_key(out@[pos as int]));
                lemma_chars_lt_total(out@[pos as int].component@, p.component@);
                assert(pair_lt(pin_key(p), keys[pos as int]));
            }
            lemma_insert_sorted(keys, pos as int, pin_key(p));
        }
        let ghost before = out@;
        out.insert(pos, p);
        proof {
            assert(out@.map_values(|q: BundlePin| pin_key(q)) =~= keys.insert(pos as int, pin_key(p)));
            assert(out@ == before.insert(pos as int, p));
            to_multiset_insert(before, pos as int, p);
            to_multiset_build(all.take(done as int), p);
            assert(pins_view(out@) =~= pins_view(before).insert(pos as int, pin_view(p)));
            assert(pins_view(all.take(done + 1)) =~= pins_view(all.take(done as int)).push(pin_view(p)));
            to_multiset_insert(pins_view(before), pos as int, pin_view(p));
            to_multiset_build(pins_view(all.take(done as int)), pin_view(p));
            assert(out@.to_multiset() == before.to_multiset().insert(p));
            assert(all.take(done + 1).to_multiset() == all.take(done as int).to_multiset().insert(p));
        }
        done = done + 1;
    }
    assert(all.take(done as int) =~= all);
    out
}

/// Orders artifact bindings by component and then input, keeping the order
/// of bindings with the same component and input.
pub fn sort_artifacts(bindings: Vec<ArtifactBinding>) -> (out: Vec<ArtifactBinding>)
    ensures
        sorted_keys(out@.map_values(|b: ArtifactBinding| binding_key(b))),
        out@.to_multiset() == bindings@.to_multiset(),
{
    let ghost all = bindings@;
    let total = bindings.len();
    let mut rest = bindings;
    let mut out: Vec<ArtifactBinding> = Vec::new();
    let mut done: usize = 0;
    assert(all.skip(0) =~= all);
    assert(all.take(0) =~= out@);
    while rest.len() > 0
        invariant
            total == all.len(),
            done + rest@.len() == all.len(),
            rest@ == all.skip(done as int),
            sorted_keys(out@.map_values(|b: ArtifactBinding| binding_key(b))),
            out@.to_multiset() == all.take(done as int).to_multiset(),
        decreases rest@.len(),
    {
        let a = rest.remove(0);
        proof {
            assert(all.skip(done as int)[0] == a);
            assert(all.skip(done as int).drop_first() =~= all.skip(done + 1));
            assert(all.take(done + 1) =~= all.take(done as int).push(a));
        }
        let ghost keys = out@.map_values(|b: ArtifactBinding| binding_key(b));
        let mut pos: usize = 0;
        while pos < out.len() && !compare_pair(a.component.as_str(), a.input.as_str(), out[pos].component.as_str(), out[pos].input.as_str())
            invariant
                pos <= out@.len(),
                keys == out@.map_values(|b: ArtifactBinding| binding_key(b)),
                forall|i: int| 0 <= i < pos ==> !pair_lt(binding_key(a), #[trigger] keys[i]),
            decreases out@.len() - pos,
        {
            assert(keys[pos as int] == binding_key(out@[pos as int]));
            pos = pos + 1;
        }
        proof {
            if pos < out@.len() {
                assert(keys[pos as int] == binding_key(out@[pos as int]));
            }
            lemma_insert_sorted(keys, pos as int, binding_key(a));
        }
        let ghost before = out@;
        out.insert(pos, a);
        proof {
            assert(out@.map_values(|b: ArtifactBinding| binding_key(b)) =~= keys.insert(pos as int, binding_key(a)));
            assert(out@ == before.insert(pos as int, a));
            to_multiset_insert(before, pos as int, a);
            to_multiset_build(all.take(done as int), a);
            assert(out@.to_multiset() == before.to_multiset().insert(a));
            assert(all.take(done + 1).to_multiset() == all.take(done as int).to_multiset().insert(a));
        }
        done = done + 1;
    }
    assert(all.take(done as int) =~= all);
    out
}

// === Deciding the graph intent ===

/// Some pin of `pins` is for `component`.
pub open spec fn mentioned(pins: Seq<BundlePin>, component: Seq<char>) -> bool {
    exists|i: int| 0 <= i < pins.len() && pins[i].component@ == component
}

/// The pins of `current`, in order, whose component no pin of `pins` is for.
pub open spec fn unmentioned(current: Seq<BundlePin>, pins: Seq<BundlePin>) -> Seq<BundlePin>
    decreases current.len(),
{
    if current.len() == 0 {
        Seq::empty()
    } else {
        let before = unmentioned(current.drop_last(), pins);
        if mentioned(pins, current.last().component@) {
            before
        } else {
            before.push(current.last())
        }
    }
}

/// What applying pins to a graph comes to.
#[derive(Clone, Copy, Debug, PartialEq, Eq, Structural)]
pub enum IntentDecision {
    /// The graph already deploys these pins: nothing is sent.
    Unchanged,
    /// The graph is updated from its current generation.
    Update { expected_generation: u64 },
    /// The graph is created.
    Create,
    /// The graph does not exist and the request does not create it.
    Missing,
}

fn copy_pin(p: &BundlePin) -> (c: BundlePin)
    ensures
        pin_view(c) == pin_view(*p),
{
    let mut bindings: Vec<(String, String)> = Vec::new();
    let n = p.input_bindings.len();
    let mut i: usize = 0;
    while i < n
        invariant
            n == p.input_bindings@.len(),
            i <= n,
            bindings@ == p.input_bindings@.take(i as int),
        decreases n - i,
    {
        bindings.push((p.input_bindings[i].0.clone(), p.input_bindings[i].1.clone()));
        assert(bindings@ =~= p.input_bindings@.take(i + 1));
        i = i + 1;
    }
    assert(p.input_bindings@.take(n as int) =~= p.input_bindings@);
    let source = match &p.source {
        Some(s) => Some(s.clone()),
        None => None,
    };
    BundlePin { component: p.component.clone(), bundle: p.bundle, input_bindings: bindings, source }
}

fn is_mentioned(pins: &Vec<BundlePin>, component: &str) -> (found: bool)
    ensures
        found == mentioned(pins@, component@),
{
    let n = pins.len();
    let mut i: usize = 0;
    while i < n
        invariant
            n == pins@.len(),
            i <= n,
            forall|j: int| 0 <= j < i ==> pins@[j].component@ != component@,
        decreases n - i,
    {
        if text_equal(pins[i].component.as_str(), component) {
            return true;
        }
        i = i + 1;
    }
    false
}

/// The pins a graph is applied with: the requested pins, joined, when the
/// request preserves what it does not mention, by the deployed pins of the
/// components it does not mention.
pub open spec fn merged_pins(current: Option<&GraphStatus>, pins: Seq<BundlePin>, preserve_unmentioned: bool) -> Seq<
    (Seq<char>, ContentDigest, Seq<(String, String)>, Option<Seq<char>>),
> {
    match current {
        Some(s) => if preserve_unmentioned {
            pins_view(pins) + pins_view(unmentioned(s.bundles@, pins))
        } else {
            pins_view(pins)
        },
        None => pins_view(pins),
    }
}

/// Decides how pins `pins` are applied to a graph whose status is `current`
/// (none when it does not exist): with the unmentioned deployed pins joined
/// when the request preserves them (and the result ordered by component),
/// the graph is left as it is when its deployed pins already deploy the
/// same, updated from its generation otherwise, created when it does not
/// exist and the request creates it, and missing otherwise. Also returns
/// the pins applied and the components that change, in ascending order.
pub fn decide_intent(current: Option<&GraphStatus>, pins: Vec<BundlePin>, preserve_unmentioned: bool, create: bool) -> (out: (
    IntentDecision,
    Vec<BundlePin>,
    Vec<String>,
))
    ensures
        current is Some && preserve_unmentioned ==> sorted_keys(out.1@.map_values(|p: BundlePin| pin_key(p))),
        current is Some && preserve_unmentioned ==> pins_view(out.1@).to_multiset() == merged_pins(current, pins@, preserve_unmentioned).to_multiset(),
        !(current is Some && preserve_unmentioned) ==> out.1@ == pins@,
        current matches Some(s) ==> (out.0 == IntentDecision::Unchanged <==> same_pins(s.bundles@, out.1@)),
        current matches Some(s) ==> (out.0 != IntentDecision::Unchanged ==> out.0 == (IntentDecision::Update { expected_generation: s.generation })),
        current is None ==> out.0 == (if create { IntentDecision::Create } else { IntentDecision::Missing }),
        (out.0 == IntentDecision::Unchanged || out.0 == IntentDecision::Missing) ==> out.2@.len() == 0,
        out.0 is Update || out.0 is Create ==> (forall|i: int, j: int| 0 <= i < j < out.2@.len() ==> chars_lt(out.2@[i]@, out.2@[j]@)),
        out.0 is Update || out.0 is Create ==> (forall|i: int| 0 <= i < out.2@.len() ==> component_changes(deployed_pins(current), out.1@, #[trigger] out.2@[i]@)),
        out.0 is Update || out.0 is Create ==> (forall|c: Seq<char>| component_changes(deployed_pins(current), out.1@, c) ==> exists|i: int|
            0 <= i < out.2@.len() && #[trigger] out.2@[i]@ == c),
{
    match current {
        Some(status) => {
            let mut applied = pins;
            if preserve_unmentioned {
                let ghost requested = applied@;
                let requested_len = applied.len();
                let n = status.bundles.len();
                let mut i: usize = 0;
                while i < n
                    invariant
                        n == status.bundles@.len(),
                        i <= n,
                        pins_view(applied@) == pins_view(requested) + pins_view(unmentioned(status.bundles@.take(i as int), requested)),
                        requested_len == requested.len(),
                        applied@.len() >= requested.len(),
                        applied@.take(requested.len() as int) == requested,
                    decreases n - i,
                {
                    proof {
                        assert(status.bundles@.take(i + 1).drop_last() =~= status.bundles@.take(i as int));
                        assert(status.bundles@.take(i + 1).last() == status.bundles@[i as int]);
                    }
                    let ghost prefix = applied@.take(requested.len() as int);
                    let mentioned_here = is_mentioned_prefix(&applied, requested_len, status.bundles[i].component.as_str());
                    proof {
                        assert(applied@.take(requested.len() as int) =~= requested);
                    }
                    if !mentioned_here {
                        let copy = copy_pin(&status.bundles[i]);
                        let ghost before = applied@;
                        applied.push(copy);
                        proof {
                            assert(pins_view(applied@) =~= pins_view(before).push(pin_view(status.bundles@[i as int])));
                            assert(applied@.take(requested.len() as int) =~= before.take(requested.len() as int));
                            assert(pins_view(unmentioned(status.bundles@.take(i + 1), requested)) =~= pins_view(
                                unmentioned(status.bundles@.take(i as int), requested),
                            ).push(pin_view(status.bundles@[i as int])));
                        }
                    }
                    i = i + 1;
                }
                assert(status.bundles@.take(n as int) =~= status.bundles@);
                applied = sort_pins(applied);
            }
            if same_deployable_pins(status.bundles.as_slice(), applied.as_slice()) {
                (IntentDecision::Unchanged, applied, Vec::new())
            } else {
                let changed = changed_component_names(current, applied.as_slice());
                let ghost av = applied@;
                let ghost cv = changed@;
                assert(forall|c: Seq<char>| component_changes(deployed_pins(current), av, c) ==> exists|i: int|
                    0 <= i < cv.len() && #[trigger] cv[i]@ == c);
                let result = (IntentDecision::Update { expected_generation: status.generation }, applied, changed);
                assert(result.1@ == av);
                assert(result.2@ == cv);
                result
            }
        },
        None => {
            if create {
                let changed = changed_component_names(current, pins.as_slice());
                let ghost av = pins@;
                let ghost cv = changed@;
                let result = (IntentDecision::Create, pins, changed);
                assert(result.1@ == av);
                assert(result.2@ == cv);
                result
            } else {
                (IntentDecision::Missing, pins, Vec::new())
            }
        },
    }
}

fn is_mentioned_prefix(pins: &Vec<BundlePin>, count: usize, component: &str) -> (found: bool)
    requires
        count <= pins@.len(),
    ensures
        found == mentioned(pins@.take(count as int), component@),
{
    let mut i: usize = 0;
    while i < count
        invariant
            count <= pins@.len(),
            i <= count,
            forall|j: int| 0 <= j < i ==> pins@[j].component@ != component@,
        decreases count - i,
    {
        if text_equal(pins[i].component.as_str(), component) {
            assert(pins@.take(count as int)[i as int] == pins@[i as int]);
            return true;
        }
        i = i + 1;
    }
    proof {
        assert forall|j: int| 0 <= j < count implies pins@.take(count as int)[j].component@ != component@ by {
            assert(pins@.take(count as int)[j] == pins@[j]);
        }
    }
    false
}

} // verus!

verus! {

/// Preserving unmentioned pins keeps exactly the deployed pins of the
/// components that no requested pin is for, in their order.
pub proof fn law_unmentioned_pins(current: Seq<BundlePin>, pins: Seq<BundlePin>, p: BundlePin)
    ensures
        unmentioned(current, pins).contains(p) <==> current.contains(p) && !mentioned(pins, p.component@),
    decreases current.len(),
{
    if current.len() > 0 {
        let front = current.drop_last();
        law_unmentioned_pins(front, pins, p);
        let before = unmentioned(front, pins);
        assert(current.contains(p) <==> front.contains(p) || current.last() == p) by {
            if current.contains(p) {
                let i = choose|i: int| 0 <= i < current.len() && current[i] == p;
                if i < front.len() {
                    assert(front[i] == p);
                }
            }
            if front.contains(p) {
                let i = choose|i: int| 0 <= i < front.len() && front[i] == p;
                assert(current[i] == p);
            }
        }
        if !mentioned(pins, current.last().component@) {
            assert(before.push(current.last()).contains(p) <==> before.contains(p) || current.last() == p) by {
                if before.push(current.last()).contains(p) {
                    let i = choose|i: int| 0 <= i < before.len() + 1 && before.push(current.last())[i] == p;
                    if i < before.len() {
                        assert(before[i] == p);
                    }
                }
                if before.contains(p) {
                    let i = choose|i: int| 0 <= i < before.len() && before[i] == p;
                    assert(before.push(current.last())[i] == p);
                }
                assert(before.push(current.last())[before.len() as int] == current.last());
            }
        }
    }
}

/// A request for one component takes exactly the bundles of that
/// component, by position; a request for no particular component takes
/// every bundle.
pub proof fn law_selected_bundles(bundles: Seq<SourceBundle>, component: Option<Seq<char>>, i: int)
    requires
        bundles.len() <= usize::MAX,
    ensures
        0 <= i < bundles.len() ==> (selected(bundles, component).contains(i as usize) <==> (component is None || component
            == Some(bundles[i].component@))),
        component is None ==> selected(bundles, component).len() == bundles.len(),
    decreases bundles.len(),
{
    if bundles.len() > 0 {
        let front = bundles.drop_last();
        law_selected_bundles(front, component, i);
        lemma_selected_bounds(front, component);
        let before = selected(front, component);
        let n = (bundles.len() - 1) as usize;
        if 0 <= i < bundles.len() {
            if i < front.len() {
                assert(front[i] == bundles[i]);
            }
            let take = component is None || component == Some(bundles.last().component@);
            let s = selected(bundles, component);
            if take {
                assert(s == before.push(n));
                if s.contains(i as usize) {
                    let k = choose|k: int| 0 <= k < s.len() && s[k] == i as usize;
                    if k < before.len() {
                        assert(before[k] == i as usize);
                        assert(before.contains(i as usize));
                    }
                }
                if i < front.len() && before.contains(i as usize) {
                    let k = choose|k: int| 0 <= k < before.len() && before[k] == i as usize;
                    assert(s[k] == i as usize);
                }
                if i == n {
                    assert(s[before.len() as int] == n);
                }
            } else {
                if i == n {
                    assert forall|k: int| 0 <= k < before.len() implies before[k] != i as usize by {
                        assert(before[k] < front.len());
                    }
                }
            }
        }
    }
}

} // verus!

verus! {

/// Pinning a source either fails or pins each selected bundle, in order:
/// its component (never one already taken, and each once), its parsed
/// digest, the artifact digests built for that component and the source's
/// provenance. A selected bundle whose component is already taken fails it.
pub proof fn law_pinned_bundles(
    bundles: Seq<SourceBundle>,
    sel: Seq<usize>,
    bindings: Seq<ArtifactBinding>,
    provenance: Seq<char>,
    names: Set<Seq<char>>,
)
    requires
        forall|k: int| 0 <= k < sel.len() ==> (#[trigger] sel[k]) < bundles.len(),
    ensures
        pinned(bundles, sel, bindings, provenance, names) matches Ok(pins) ==> {
            &&& pins.len() == sel.len()
            &&& forall|k: int|
                #![trigger pins[k]]
                0 <= k < pins.len() ==> {
                    &&& pins[k].0 == bundles[sel[k] as int].component@
                    &&& parsed_digest(bundles[sel[k] as int].bundle_id@) == Ok::<ContentDigest, Seq<char>>(pins[k].1)
                    &&& pins[k].2 == bindings_of_component(bindings, pins[k].0)
                    &&& pins[k].3 == Some(provenance)
                    &&& !names.contains(pins[k].0)
                }
            &&& forall|j: int, k: int| 0 <= j < k < pins.len() ==> #[trigger] pins[j].0 != #[trigger] pins[k].0
        },
        (exists|k: int| 0 <= k < sel.len() && names.contains(bundles[(#[trigger] sel[k]) as int].component@)) ==> pinned(
            bundles,
            sel,
            bindings,
            provenance,
            names,
        ) is Err,
    decreases sel.len(),
{
    if sel.len() > 0 {
        let front = sel.drop_last();
        assert forall|k: int| 0 <= k < front.len() implies (#[trigger] front[k]) < bundles.len() by {
            assert(front[k] == sel[k]);
        }
        law_pinned_bundles(bundles, front, bindings, provenance, names);
        if let Ok(pins) = pinned(bundles, sel, bindings, provenance, names) {
            let before = pinned(bundles, front, bindings, provenance, names)->Ok_0;
            assert(pins == before.push(pins.last()));
            assert forall|k: int| 0 <= k < before.len() implies #[trigger] pins[k] == before[k] && front[k] == sel[k] by {}
            let b = bundles[sel.last() as int];
            assert forall|j: int| 0 <= j < before.len() implies before[j].0 != b.component@ by {
                if before[j].0 == b.component@ {
                    assert(pinned_components(before).contains(b.component@));
                }
            }
        }
        if exists|k: int| 0 <= k < sel.len() && names.contains(bundles[(#[trigger] sel[k]) as int].component@) {
            let k = choose|k: int| 0 <= k < sel.len() && names.contains(bundles[(#[trigger] sel[k]) as int].component@);
            if k < front.len() {
                assert(front[k] == sel[k]);
            }
        }
    }
}

} // verus!

verus! {

/// A pin carries, for its component, exactly the artifact digests built for
/// that component, each with its input, and none built for another; the
/// requirements checked for a source are exactly those of its selected
/// bundles.
pub proof fn law_component_artifacts(
    bindings: Seq<ArtifactBinding>,
    component: Seq<char>,
    pair: (String, String),
    bundles: Seq<SourceBundle>,
    sel: Seq<usize>,
    r: ArtifactRequirement,
)
    ensures
        bindings_of_component(bindings, component).contains(pair) <==> exists|i: int|
            0 <= i < bindings.len() && (#[trigger] bindings[i]).component@ == component && pair == (bindings[i].input, bindings[i].digest),
        requirements_of(bundles, sel).contains(r) <==> exists|k: int|
            0 <= k < sel.len() && bundles[(#[trigger] sel[k]) as int].artifact_requirements@.contains(r),
    decreases bindings.len() + sel.len(),
{
    if bindings.len() > 0 {
        let front = bindings.drop_last();
        law_component_artifacts(front, component, pair, bundles, Seq::empty(), r);
        let b = bindings.last();
        let before = bindings_of_component(front, component);
        if b.component@ == component {
            assert(before.push((b.input, b.digest)).contains(pair) <==> before.contains(pair) || (b.input, b.digest) == pair) by {
                if before.push((b.input, b.digest)).contains(pair) {
                    let k = choose|k: int| 0 <= k < before.len() + 1 && before.push((b.input, b.digest))[k] == pair;
                    if k < before.len() {
                        assert(before[k] == pair);
                    }
                }
                if before.contains(pair) {
                    let k = choose|k: int| 0 <= k < before.len() && before[k] == pair;
                    assert(before.push((b.input, b.digest))[k] == pair);
                }
                assert(before.push((b.input, b.digest))[before.len() as int] == (b.input, b.digest));
            }
        }
        if exists|i: int|
            0 <= i < front.len() && (#[trigger] front[i]).component@ == component && pair == (front[i].input, front[i].digest) {
            let i = choose|i: int|
                0 <= i < front.len() && (#[trigger] front[i]).component@ == component && pair == (front[i].input, front[i].digest);
            assert(bindings[i] == front[i]);
        }
        if exists|i: int|
            0 <= i < bindings.len() && (#[trigger] bindings[i]).component@ == component && pair == (bindings[i].input, bindings[i].digest) {
            let i = choose|i: int|
                0 <= i < bindings.len() && (#[trigger] bindings[i]).component@ == component && pair == (
                    bindings[i].input,
                    bindings[i].digest,
                );
            if i < front.len() {
                assert(front[i] == bindings[i]);
            }
        }
        assert(bindings[bindings.len() - 1] == b);
    }
    if sel.len() > 0 {
        let front = sel.drop_last();
        law_component_artifacts(Seq::empty(), component, pair, bundles, front, r);
        let a = requirements_of(bundles, front);
        let c = bundles[sel.last() as int].artifact_requirements@;
        assert((a + c).contains(r) <==> a.contains(r) || c.contains(r)) by {
            if (a + c).contains(r) {
                let k = choose|k: int| 0 <= k < (a + c).len() && (a + c)[k] == r;
                if k < a.len() {
                    assert(a[k] == r);
                } else {
                    assert(c[k - a.len()] == r);
                }
            }
            if a.contains(r) {
                let k = choose|k: int| 0 <= k < a.len() && a[k] == r;
                assert((a + c)[k] == r);
            }
            if c.contains(r) {
                let k = choose|k: int| 0 <= k < c.len() && c[k] == r;
                assert((a + c)[a.len() + k] == r);
            }
        }
        if exists|k: int| 0 <= k < front.len() && bundles[(#[trigger] front[k]) as int].artifact_requirements@.contains(r) {
            let k = choose|k: int| 0 <= k < front.len() && bundles[(#[trigger] front[k]) as int].artifact_requirements@.contains(r);
            assert(sel[k] == front[k]);
        }
        if exists|k: int| 0 <= k < sel.len() && bundles[(#[trigger] sel[k]) as int].artifact_requirements@.contains(r) {
            let k = choose|k: int| 0 <= k < sel.len() && bundles[(#[trigger] sel[k]) as int].artifact_requirements@.contains(r);
            if k < front.len() {
                assert(front[k] == sel[k]);
            }
        }
        assert(sel[sel.len() - 1] == sel.last());
    }
}

} // verus!
