//! Accepting one evaluation attempt of a component: the evaluation-protocol
//! checks on what it returned, the observed-output bindings it sets up, and
//! the component's output records that replace those of the generation.

use vstd::prelude::*;

use crate::resource::{first_observed, OutputDeclaration};
use crate::text::{chars_lt, compare_text, lemma_chars_lt_total, lemma_chars_lt_transitive, text_equal, Precedence};

verus! {

/// An output a component declares: its name, whether a controller observes
/// it (rather than the component computing it), and whether it may be left
/// out.
#[derive(Clone, Debug, PartialEq, Eq)]
pub struct ComponentOutput {
    pub name: String,
    pub observed: bool,
    pub optional: bool,
}

/// A resource an attempt returned: its id, the component instance its path
/// names, its address, and the outputs it declares.
#[derive(Clone, Debug)]
pub struct AttemptResource {
    pub id: u128,
    pub instance: String,
    pub address: String,
    pub outputs: Vec<OutputDeclaration>,
}

/// A static output value a completed evaluation returned.
#[derive(Clone, Debug, PartialEq, Eq)]
pub struct StaticOutput {
    pub name: String,
    pub value: String,
}

/// A component output that a completed evaluation binds to an output of
/// one of its resources, by the resource's address.
#[derive(Clone, Debug, PartialEq, Eq)]
pub struct OutputBinding {
    pub name: String,
    pub resource: String,
    pub output: String,
}

/// An output record of the component at the current generation: the
/// output's name, its value, and the resource output it was observed on
/// (none for a static output).
#[derive(Clone, Debug, PartialEq, Eq)]
pub struct OutputRecord {
    pub name: String,
    pub value: String,
    pub source: Option<(u128, String)>,
}

/// An output record as plain values.
pub type RecordView = (Seq<char>, Seq<char>, Option<(u128, Seq<char>)>);

/// A record as plain values.
pub open spec fn record_view(r: OutputRecord) -> RecordView {
    (
        r.name@,
        r.value@,
        match r.source {
            Some((id, output)) => Some((id, output@)),
            None => None,
        },
    )
}

/// Records as plain values.
pub open spec fn records_view(r: Seq<OutputRecord>) -> Seq<RecordView> {
    r.map_values(|x: OutputRecord| record_view(x))
}

/// The first declaration of `name`: whether it is observed and whether it
/// is optional.
pub open spec fn decl_of(decls: Seq<ComponentOutput>, name: Seq<char>) -> Option<(bool, bool)>
    decreases decls.len(),
{
    if decls.len() == 0 {
        None
    } else if decls[0].name@ == name {
        Some((decls[0].observed, decls[0].optional))
    } else {
        decl_of(decls.drop_first(), name)
    }
}

/// `i` is the first resource at `address`.
pub open spec fn first_at(rs: Seq<AttemptResource>, address: Seq<char>, i: int) -> bool {
    &&& 0 <= i < rs.len()
    &&& rs[i].address@ == address
    &&& forall|k: int| 0 <= k < i ==> rs[k].address@ != address
}

/// The first resource at `address`, if any.
pub open spec fn resource_at(rs: Seq<AttemptResource>, address: Seq<char>) -> Option<int> {
    if exists|i: int| first_at(rs, address, i) {
        Some(choose|i: int| first_at(rs, address, i))
    } else {
        None
    }
}

proof fn lemma_first_at_unique(rs: Seq<AttemptResource>, address: Seq<char>, i: int, j: int)
    requires
        first_at(rs, address, i),
        first_at(rs, address, j),
    ensures
        i == j,
{
}

/// The first problem `f` finds, going through `items` in order.
pub open spec fn first_problem<T>(items: Seq<T>, f: spec_fn(T) -> Option<Seq<char>>) -> Option<Seq<char>>
    decreases items.len(),
{
    if items.len() == 0 {
        None
    } else {
        match first_problem(items.drop_last(), f) {
            Some(m) => Some(m),
            None => f(items.last()),
        }
    }
}

fn decl_lookup(decls: &Vec<ComponentOutput>, name: &str) -> (r: Option<(bool, bool)>)
    ensures
        r == decl_of(decls@, name@),
{
    let n = decls.len();
    let mut i: usize = 0;
    assert(decls@.skip(0) =~= decls@);
    while i < n
        invariant
            n == decls@.len(),
            i <= n,
            decl_of(decls@, name@) == decl_of(decls@.skip(i as int), name@),
        decreases n - i,
    {
        if text_equal(decls[i].name.as_str(), name) {
            return Some((decls[i].observed, decls[i].optional));
        }
        assert(decls@.skip(i as int).drop_first() =~= decls@.skip(i + 1));
        i = i + 1;
    }
    None
}

fn output_lookup(outputs: &Vec<OutputDeclaration>, name: &str) -> (r: Option<bool>)
    ensures
        r == first_observed(outputs@, name@),
{
    let n = outputs.len();
    let mut i: usize = 0;
    assert(outputs@.skip(0) =~= outputs@);
    while i < n
        invariant
            n == outputs@.len(),
            i <= n,
            first_observed(outputs@, name@) == first_observed(outputs@.skip(i as int), name@),
        decreases n - i,
    {
        if text_equal(outputs[i].name.as_str(), name) {
            return Some(outputs[i].observed);
        }
        assert(outputs@.skip(i as int).drop_first() =~= outputs@.skip(i + 1));
        i = i + 1;
    }
    None
}

fn resource_lookup(rs: &Vec<AttemptResource>, address: &str) -> (r: Option<usize>)
    ensures
        match r {
            Some(i) => resource_at(rs@, address@) == Some(i as int),
            None => resource_at(rs@, address@) is None,
        },
{
    let n = rs.len();
    let mut i: usize = 0;
    while i < n
        invariant
            n == rs@.len(),
            i <= n,
            forall|k: int| 0 <= k < i ==> rs@[k].address@ != address@,
        decreases n - i,
    {
        if text_equal(rs[i].address.as_str(), address) {
            proof {
                assert(first_at(rs@, address@, i as int));
                let c = choose|c: int| first_at(rs@, address@, c);
                lemma_first_at_unique(rs@, address@, c, i as int);
            }
            return Some(i);
        }
        i = i + 1;
    }
    None
}

/// `names[i]` sorts before `names[j]`: by name, then by position.
pub open spec fn name_before(names: Seq<Seq<char>>, i: int, j: int) -> bool {
    chars_lt(names[i], names[j]) || (names[i] == names[j] && i < j)
}

/// `order` lists every position of `names` once, in `name_before` order.
pub open spec fn name_order_of(names: Seq<Seq<char>>, order: Seq<usize>) -> bool {
    &&& order.len() == names.len()
    &&& forall|a: int| 0 <= a < order.len() ==> (#[trigger] order[a]) < names.len()
    &&& forall|a: int, b: int| 0 <= a < b < order.len() ==> name_before(names, #[trigger] order[a] as int, #[trigger] order[b] as int)
}

fn not_after(other: &str, key: &str) -> (r: bool)
    ensures
        r == (chars_lt(other@, key@) || other@ == key@),
{
    match compare_text(other, key) {
        Precedence::After => false,
        _ => true,
    }
}

/// The positions of `names` in name order, ties kept in place.
fn name_order(names: &Vec<String>) -> (order: Vec<usize>)
    ensures
        name_order_of(names@.map_values(|s: String| s@), order@),
{
    let ghost nv = names@.map_values(|s: String| s@);
    let mut order: Vec<usize> = Vec::new();
    let mut i: usize = 0;
    while i < names.len()
        invariant
            nv == names@.map_values(|s: String| s@),
            i <= names@.len(),
            order@.len() == i,
            forall|a: int| 0 <= a < order@.len() ==> (#[trigger] order@[a]) < i,
            forall|a: int, b: int|
                0 <= a < b < order@.len() ==> name_before(nv, #[trigger] order@[a] as int, #[trigger] order@[b] as int),
        decreases names@.len() - i,
    {
        let mut pos: usize = 0;
        while pos < order.len() && not_after(names[order[pos]].as_str(), names[i].as_str())
            invariant
                nv == names@.map_values(|s: String| s@),
                i < names@.len(),
                pos <= order@.len(),
                forall|a: int| 0 <= a < order@.len() ==> (#[trigger] order@[a]) < i,
                forall|a: int| 0 <= a < pos ==> name_before(nv, #[trigger] order@[a] as int, i as int),
            decreases order@.len() - pos,
        {
            assert(nv[order@[pos as int] as int] == names@[order@[pos as int] as int]@);
            assert(nv[i as int] == names@[i as int]@);
            pos = pos + 1;
        }
        let ghost before = order@;
        proof {
            assert forall|a: int| pos <= a < before.len() implies name_before(nv, i as int, #[trigger] before[a] as int) by {
                let p = before[pos as int] as int;
                assert(nv[p] == names@[p]@);
                assert(nv[i as int] == names@[i as int]@);
                lemma_chars_lt_total(nv[p], nv[i as int]);
                if a > pos {
                    let q = before[a] as int;
                    assert(name_before(nv, p, q));
                    if chars_lt(nv[p], nv[q]) {
                        lemma_chars_lt_transitive(nv[i as int], nv[p], nv[q]);
                    }
                }
            }
        }
        order.insert(pos, i);
        proof {
            assert forall|a: int, b: int|
                0 <= a < b < order@.len() implies name_before(nv, #[trigger] order@[a] as int, #[trigger] order@[b] as int) by {
                if b < pos {
                    assert(order@[a] == before[a] && order@[b] == before[b]);
                } else if b == pos {
                    assert(order@[a] == before[a]);
                } else if a < pos {
                    assert(order@[a] == before[a] && order@[b] == before[b - 1]);
                    let x = before[a] as int;
                    let y = before[b - 1] as int;
                    assert(name_before(nv, x, i as int));
                    assert(name_before(nv, i as int, y));
                    lemma_chars_lt_total(nv[x], nv[y]);
                    if chars_lt(nv[x], nv[i as int]) && chars_lt(nv[i as int], nv[y]) {
                        lemma_chars_lt_transitive(nv[x], nv[i as int], nv[y]);
                    }
                } else if a == pos {
                    assert(order@[b] == before[b - 1]);
                } else {
                    assert(order@[a] == before[a - 1] && order@[b] == before[b - 1]);
                }
            }
            assert forall|a: int| 0 <= a < order@.len() implies (#[trigger] order@[a]) < i + 1 by {
                if a < pos {
                    assert(order@[a] == before[a]);
                } else if a > pos {
                    assert(order@[a] == before[a - 1]);
                }
            }
        }
        i = i + 1;
    }
    order
}

// === The protocol checks ===

/// What is wrong with a static output, if anything: it must be declared,
/// and declared as static.
pub open spec fn static_problem(decls: Seq<ComponentOutput>, s: StaticOutput) -> Option<Seq<char>> {
    match decl_of(decls, s.name@) {
        None => Some("undeclared static output "@ + s.name@),
        Some((observed, _)) => if observed {
            Some("observed output "@ + s.name@ + " returned as static"@)
        } else {
            None
        },
    }
}

/// What is wrong with a binding, if anything: its output must be declared
/// as observed, and it must name a resource of the attempt that declares
/// the bound output as observed.
pub open spec fn binding_problem(decls: Seq<ComponentOutput>, rs: Seq<AttemptResource>, b: OutputBinding) -> Option<Seq<char>> {
    match decl_of(decls, b.name@) {
        None => Some("undeclared observed output "@ + b.name@),
        Some((observed, _)) => if !observed {
            Some("static output "@ + b.name@ + " returned as observed"@)
        } else {
            match resource_at(rs, b.resource@) {
                None => Some("observed binding points outside the component result"@),
                Some(i) => match first_observed(rs[i].outputs@, b.output@) {
                    None => Some("resource does not declare observed output "@ + b.output@),
                    Some(o) => if !o {
                        Some("resource output "@ + b.output@ + " is not observed"@)
                    } else {
                        None
                    },
                },
            }
        },
    }
}

/// The attempt returned `name`, as a static output or a binding.
pub open spec fn is_returned(statics: Seq<StaticOutput>, bs: Seq<OutputBinding>, name: Seq<char>) -> bool {
    (exists|i: int| 0 <= i < statics.len() && statics[i].name@ == name) || (exists|j: int|
        0 <= j < bs.len() && bs[j].name@ == name)
}

/// A required output the attempt did not return.
pub open spec fn omission(statics: Seq<StaticOutput>, bs: Seq<OutputBinding>, d: ComponentOutput) -> Option<Seq<char>> {
    if !d.optional && !is_returned(statics, bs, d.name@) {
        Some("required output "@ + d.name@ + " was omitted"@)
    } else {
        None
    }
}

/// A binding as plain values: the bound resource's id, its output, and the
/// component output it feeds.
pub open spec fn resolve(rs: Seq<AttemptResource>, b: OutputBinding) -> (u128, Seq<char>, Seq<char>) {
    (rs[resource_at(rs, b.resource@)->Some_0].id, b.output@, b.name@)
}

/// The component output that resource output `(id, output)` feeds: the last
/// binding of it wins.
pub open spec fn last_target(res: Seq<(u128, Seq<char>, Seq<char>)>, id: u128, output: Seq<char>) -> Option<Seq<char>>
    decreases res.len(),
{
    if res.len() == 0 {
        None
    } else if res.last().0 == id && res.last().1 == output {
        Some(res.last().2)
    } else {
        last_target(res.drop_last(), id, output)
    }
}

/// The old observed records that stay: those whose resource output still
/// feeds the same component output.
pub open spec fn kept_records(old: Seq<RecordView>, res: Seq<(u128, Seq<char>, Seq<char>)>) -> Seq<RecordView>
    decreases old.len(),
{
    if old.len() == 0 {
        Seq::empty()
    } else {
        let rest = kept_records(old.drop_last(), res);
        let r = old.last();
        match r.2 {
            Some((id, output)) => if last_target(res, id, output) == Some(r.0) {
                rest.push(r)
            } else {
                rest
            },
            None => rest,
        }
    }
}

/// The records of the static outputs, in order.
pub open spec fn static_records(statics: Seq<StaticOutput>) -> Seq<RecordView> {
    statics.map_values(|s: StaticOutput| (s.name@, s.value@, None::<(u128, Seq<char>)>))
}

/// The names of records, in order.
pub open spec fn record_names(recs: Seq<RecordView>) -> Seq<Seq<char>> {
    recs.map_values(|r: RecordView| r.0)
}

/// `out` is `recs` ordered by name, records of one name in their order.
pub open spec fn ordered_by_name(recs: Seq<RecordView>, out: Seq<RecordView>) -> bool {
    exists|order: Seq<usize>|
        #[trigger] name_order_of(record_names(recs), order) && out == order.map_values(|i: usize| recs[i as int])
}

/// The outcome of accepting an attempt of a component.
#[derive(Debug)]
pub struct Interpretation {
    /// The bindings, as (resource id, resource output, component output),
    /// in the order returned; a later one of the same resource output wins.
    pub bindings: Vec<(u128, String, String)>,
    /// The component's output records that replace those of the
    /// generation, ordered by name.
    pub outputs: Vec<OutputRecord>,
    /// Whether they differ from the records they replace.
    pub changed: bool,
}

/// Bindings as plain values.
pub open spec fn bindings_view(b: Seq<(u128, String, String)>) -> Seq<(u128, Seq<char>, Seq<char>)> {
    b.map_values(|x: (u128, String, String)| (x.0, x.1@, x.2@))
}

fn copy_record(r: &OutputRecord) -> (c: OutputRecord)
    ensures
        record_view(c) == record_view(*r),
{
    OutputRecord {
        name: r.name.clone(),
        value: r.value.clone(),
        source: match &r.source {
            Some((id, output)) => Some((*id, output.clone())),
            None => None,
        },
    }
}

fn same_record(a: &OutputRecord, b: &OutputRecord) -> (same: bool)
    ensures
        same == (record_view(*a) == record_view(*b)),
{
    if !text_equal(a.name.as_str(), b.name.as_str()) || !text_equal(a.value.as_str(), b.value.as_str()) {
        return false;
    }
    match (&a.source, &b.source) {
        (None, None) => true,
        (Some((i, o)), Some((j, p))) => *i == *j && text_equal(o.as_str(), p.as_str()),
        _ => false,
    }
}

fn same_records(a: &Vec<OutputRecord>, b: &Vec<OutputRecord>) -> (same: bool)
    ensures
        same == (records_view(a@) == records_view(b@)),
{
    if a.len() != b.len() {
        assert(records_view(a@).len() != records_view(b@).len());
        return false;
    }
    let mut i: usize = 0;
    while i < a.len()
        invariant
            a@.len() == b@.len(),
            i <= a@.len(),
            forall|k: int| 0 <= k < i ==> records_view(a@)[k] == records_view(b@)[k],
        decreases a@.len() - i,
    {
        if !same_record(&a[i], &b[i]) {
            assert(records_view(a@)[i as int] != records_view(b@)[i as int]);
            return false;
        }
        i = i + 1;
    }
    assert(records_view(a@) =~= records_view(b@));
    true
}

fn returned(statics: &Vec<StaticOutput>, bs: &Vec<OutputBinding>, name: &str) -> (r: bool)
    ensures
        r == is_returned(statics@, bs@, name@),
{
    let mut i: usize = 0;
    while i < statics.len()
        invariant
            i <= statics@.len(),
            forall|k: int| 0 <= k < i ==> statics@[k].name@ != name@,
        decreases statics@.len() - i,
    {
        if text_equal(statics[i].name.as_str(), name) {
            return true;
        }
        i = i + 1;
    }
    let mut j: usize = 0;
    while j < bs.len()
        invariant
            j <= bs@.len(),
            forall|k: int| 0 <= k < statics@.len() ==> statics@[k].name@ != name@,
            forall|k: int| 0 <= k < j ==> bs@[k].name@ != name@,
        decreases bs@.len() - j,
    {
        if text_equal(bs[j].name.as_str(), name) {
            return true;
        }
        j = j + 1;
    }
    false
}

fn target_of(bindings: &Vec<(u128, String, String)>, id: u128, output: &str) -> (r: Option<usize>)
    ensures
        match r {
            Some(k) => k < bindings@.len() && last_target(bindings_view(bindings@), id, output@) == Some(
                bindings@[k as int].2@,
            ),
            None => last_target(bindings_view(bindings@), id, output@) is None,
        },
{
    let ghost bv = bindings_view(bindings@);
    let mut k: usize = bindings.len();
    assert(bv.take(k as int) =~= bv);
    while k > 0
        invariant
            k <= bindings@.len(),
            bv == bindings_view(bindings@),
            last_target(bv, id, output@) == last_target(bv.take(k as int), id, output@),
        decreases k,
    {
        let j = k - 1;
        assert(bv.take(k as int).last() == bv[j as int]);
        assert(bv.take(k as int).drop_last() =~= bv.take(j as int));
        if bindings[j].0 == id && text_equal(bindings[j].1.as_str(), output) {
            return Some(j);
        }
        k = j;
    }
    None
}

/// A message naming `name` after `prefix`.
fn prefixed(prefix: &str, name: &str) -> (m: String)
    ensures
        m@ == prefix@ + name@,
{
    let mut m = String::from_str(prefix);
    m.append(name);
    m
}

/// The static-output check against `decls`.
pub open spec fn static_check(decls: Seq<ComponentOutput>) -> spec_fn(StaticOutput) -> Option<Seq<char>> {
    |st: StaticOutput| static_problem(decls, st)
}

/// The binding check against `decls` and the attempt's resources.
pub open spec fn binding_check(decls: Seq<ComponentOutput>, rs: Seq<AttemptResource>) -> spec_fn(OutputBinding) -> Option<Seq<char>> {
    |b: OutputBinding| binding_problem(decls, rs, b)
}

/// The check that a declared output was returned unless optional.
pub open spec fn omission_check(statics: Seq<StaticOutput>, bs: Seq<OutputBinding>) -> spec_fn(ComponentOutput) -> Option<Seq<char>> {
    |d: ComponentOutput| omission(statics, bs, d)
}

/// The bindings resolved against the attempt's resources.
pub open spec fn resolved(rs: Seq<AttemptResource>, bs: Seq<OutputBinding>) -> Seq<(u128, Seq<char>, Seq<char>)> {
    bs.map_values(|b: OutputBinding| resolve(rs, b))
}

proof fn lemma_first_problem_prefix<T>(items: Seq<T>, f: spec_fn(T) -> Option<Seq<char>>, j: int)
    requires
        0 <= j <= items.len(),
        first_problem(items.take(j), f) is Some,
    ensures
        first_problem(items, f) == first_problem(items.take(j), f),
    decreases items.len() - j,
{
    if j < items.len() {
        assert(items.take(j + 1).drop_last() =~= items.take(j));
        lemma_first_problem_prefix(items, f, j + 1);
    } else {
        assert(items.take(j) =~= items);
    }
}

/// The message of a problem, as a `String`.
fn problem_text(prefix: &str, name: &str, suffix: &str) -> (m: String)
    ensures
        m@ == prefix@ + name@ + suffix@,
{
    let mut m = String::from_str(prefix);
    m.append(name);
    m.append(suffix);
    m
}

/// Accepts an evaluation attempt of `component`, which declares `decls`:
/// the attempt returned `resources` and, when it completed, its static
/// outputs and bindings; `old` are the component's output records at the
/// current generation.
///
/// Every resource must belong to the component. Once complete, each static
/// output, then each binding, must pass the protocol checks in order
/// (`static_problem`, `binding_problem`), and then every required output
/// must have been returned (`omission`); the first failure is the error.
/// Accepted, the bindings are the returned ones resolved to resource ids,
/// and the new records are the static outputs and the old observed records
/// still bound to the same output, ordered by name; an attempt that did not
/// complete keeps none. `changed` says whether they differ from `old`.
pub fn accept_interpretation(
    component: &str,
    decls: &Vec<ComponentOutput>,
    resources: &Vec<AttemptResource>,
    complete: Option<(Vec<StaticOutput>, Vec<OutputBinding>)>,
    old: &Vec<OutputRecord>,
) -> (r: Result<Interpretation, String>)
    ensures
        (exists|i: int| 0 <= i < resources@.len() && #[trigger] resources@[i].instance@ != component@) ==> (r matches Err(
            m,
        ) && m@ == "resource belongs to another component"@),
        (forall|i: int| 0 <= i < resources@.len() ==> #[trigger] resources@[i].instance@ == component@) ==> match complete {
            None => r matches Ok(x) && x.bindings@.len() == 0 && x.outputs@.len() == 0 && x.changed == (old@.len() > 0),
            Some((statics, bs)) => match first_problem(statics@, static_check(decls@)) {
                Some(m) => r matches Err(e) && e@ == m,
                None => match first_problem(bs@, binding_check(decls@, resources@)) {
                    Some(m) => r matches Err(e) && e@ == m,
                    None => match first_problem(decls@, omission_check(statics@, bs@)) {
                        Some(m) => r matches Err(e) && e@ == m,
                        None => r matches Ok(x) && bindings_view(x.bindings@) == resolved(resources@, bs@)
                            && ordered_by_name(
                            static_records(statics@) + kept_records(records_view(old@), resolved(resources@, bs@)),
                            records_view(x.outputs@),
                        ) && x.changed == (records_view(x.outputs@) != records_view(old@)),
                    },
                },
            },
        },
{
    let mut i: usize = 0;
    while i < resources.len()
        invariant
            i <= resources@.len(),
            forall|k: int| 0 <= k < i ==> #[trigger] resources@[k].instance@ == component@,
        decreases resources@.len() - i,
    {
        if !text_equal(resources[i].instance.as_str(), component) {
            return Err(String::from_str("resource belongs to another component"));
        }
        i = i + 1;
    }
    match complete {
        None => {
            let changed = old.len() > 0;
            Ok(Interpretation { bindings: Vec::new(), outputs: Vec::new(), changed })
        },
        Some((statics, bs)) => accept_complete(decls, resources, statics, bs, old),
    }
}

/// Accepts a completed attempt: the checks and the replacement records
/// that `accept_interpretation` states.
fn accept_complete(
    decls: &Vec<ComponentOutput>,
    resources: &Vec<AttemptResource>,
    statics: Vec<StaticOutput>,
    bs: Vec<OutputBinding>,
    old: &Vec<OutputRecord>,
) -> (r: Result<Interpretation, String>)
    ensures
        match first_problem(statics@, static_check(decls@)) {
            Some(m) => r matches Err(e) && e@ == m,
            None => match first_problem(bs@, binding_check(decls@, resources@)) {
                Some(m) => r matches Err(e) && e@ == m,
                None => match first_problem(decls@, omission_check(statics@, bs@)) {
                    Some(m) => r matches Err(e) && e@ == m,
                    None => r matches Ok(x) && bindings_view(x.bindings@) == resolved(resources@, bs@) && ordered_by_name(
                        static_records(statics@) + kept_records(records_view(old@), resolved(resources@, bs@)),
                        records_view(x.outputs@),
                    ) && x.changed == (records_view(x.outputs@) != records_view(old@)),
                },
            },
        },
{
    let ghost sf = static_check(decls@);
    let ghost bf = binding_check(decls@, resources@);
    let ghost df = omission_check(statics@, bs@);
    let ghost res = resolved(resources@, bs@);
    // The static outputs.
    let mut records: Vec<OutputRecord> = Vec::new();
    let mut k: usize = 0;
    while k < statics.len()
        invariant
            k <= statics@.len(),
            sf == static_check(decls@),
            first_problem(statics@.take(k as int), sf) is None,
            records@.len() == k,
            forall|j: int| 0 <= j < k ==> #[trigger] record_view(records@[j]) == static_records(statics@)[j],
        decreases statics@.len() - k,
    {
        let st = &statics[k];
        assert(statics@.take(k + 1).drop_last() =~= statics@.take(k as int));
        assert(statics@.take(k + 1).last() == statics@[k as int]);
        proof {
            if first_problem(statics@.take(k + 1), sf) is Some {
                lemma_first_problem_prefix(statics@, sf, k + 1);
            }
        }
        match decl_lookup(decls, st.name.as_str()) {
            None => {
                return Err(prefixed("undeclared static output ", st.name.as_str()));
            },
            Some((observed, _)) => {
                if observed {
                    return Err(problem_text("observed output ", st.name.as_str(), " returned as static"));
                }
            },
        }
        records.push(OutputRecord { name: st.name.clone(), value: st.value.clone(), source: None });
        assert(record_view(records@[k as int]) == static_records(statics@)[k as int]);
        k = k + 1;
    }
    assert(statics@.take(statics@.len() as int) =~= statics@);
    assert(records_view(records@) =~= static_records(statics@)) by {
        assert forall|j: int| 0 <= j < records@.len() implies records_view(records@)[j] == static_records(statics@)[j] by {
            assert(record_view(records@[j]) == static_records(statics@)[j]);
        }
    }
    // The bindings.
    let mut bindings: Vec<(u128, String, String)> = Vec::new();
    let mut k: usize = 0;
    while k < bs.len()
        invariant
            k <= bs@.len(),
            bf == binding_check(decls@, resources@),
            first_problem(statics@, static_check(decls@)) is None,
            res == resolved(resources@, bs@),
            first_problem(bs@.take(k as int), bf) is None,
            bindings@.len() == k,
            forall|j: int| 0 <= j < k ==> #[trigger] bindings_view(bindings@)[j] == res[j],
        decreases bs@.len() - k,
    {
        let b = &bs[k];
        assert(bs@.take(k + 1).drop_last() =~= bs@.take(k as int));
        assert(bs@.take(k + 1).last() == bs@[k as int]);
        proof {
            if first_problem(bs@.take(k + 1), bf) is Some {
                lemma_first_problem_prefix(bs@, bf, k + 1);
            }
        }
        match decl_lookup(decls, b.name.as_str()) {
            None => {
                return Err(prefixed("undeclared observed output ", b.name.as_str()));
            },
            Some((observed, _)) => {
                if !observed {
                    return Err(problem_text("static output ", b.name.as_str(), " returned as observed"));
                }
            },
        }
        let at = match resource_lookup(resources, b.resource.as_str()) {
            None => {
                return Err(String::from_str("observed binding points outside the component result"));
            },
            Some(at) => at,
        };
        match output_lookup(&resources[at].outputs, b.output.as_str()) {
            None => {
                return Err(prefixed("resource does not declare observed output ", b.output.as_str()));
            },
            Some(o) => {
                if !o {
                    return Err(problem_text("resource output ", b.output.as_str(), " is not observed"));
                }
            },
        }
        let ghost prior = bindings@;
        bindings.push((resources[at].id, b.output.clone(), b.name.clone()));
        assert(res[k as int] == resolve(resources@, bs@[k as int]));
        assert(bindings_view(bindings@)[k as int] == res[k as int]);
        assert forall|j: int| 0 <= j < k + 1 implies #[trigger] bindings_view(bindings@)[j] == res[j] by {
            if j < k {
                assert(bindings@[j] == prior[j]);
                assert(bindings_view(prior)[j] == res[j]);
            }
        }
        k = k + 1;
    }
    assert(bs@.take(bs@.len() as int) =~= bs@);
    assert(bindings_view(bindings@) =~= res);
    // Every required output was returned.
    let mut k: usize = 0;
    while k < decls.len()
        invariant
            k <= decls@.len(),
            df == omission_check(statics@, bs@),
            first_problem(statics@, static_check(decls@)) is None,
            first_problem(bs@, binding_check(decls@, resources@)) is None,
            first_problem(decls@.take(k as int), df) is None,
        decreases decls@.len() - k,
    {
        let d = &decls[k];
        assert(decls@.take(k + 1).drop_last() =~= decls@.take(k as int));
        assert(decls@.take(k + 1).last() == decls@[k as int]);
        proof {
            if first_problem(decls@.take(k + 1), df) is Some {
                lemma_first_problem_prefix(decls@, df, k + 1);
            }
        }
        if !d.optional && !returned(&statics, &bs, d.name.as_str()) {
            return Err(problem_text("required output ", d.name.as_str(), " was omitted"));
        }
        k = k + 1;
    }
    assert(decls@.take(decls@.len() as int) =~= decls@);
    // The old observed records still bound to the same output stay.
    let ghost ov = records_view(old@);
    let ghost sr = records_view(records@);
    let mut k: usize = 0;
    while k < old.len()
        invariant
            k <= old@.len(),
            ov == records_view(old@),
            bindings_view(bindings@) == res,
            records_view(records@) == sr + kept_records(ov.take(k as int), res),
        decreases old@.len() - k,
    {
        let o = &old[k];
        assert(ov.take(k + 1).drop_last() =~= ov.take(k as int));
        assert(ov.take(k + 1).last() == record_view(*o));
        let ghost rest = kept_records(ov.take(k as int), res);
        let ghost before = records@;
        match &o.source {
            Some((id, output)) => {
                match target_of(&bindings, *id, output.as_str()) {
                    Some(t) => {
                        assert(ov.take(k + 1).last().2 == Some((*id, output@)));
                        if text_equal(bindings[t].2.as_str(), o.name.as_str()) {
                            assert(last_target(res, *id, output@) == Some(ov.take(k + 1).last().0));
                            assert(kept_records(ov.take(k + 1), res) == rest.push(record_view(*o)));
                            records.push(copy_record(o));
                            assert(records_view(records@) =~= records_view(before).push(record_view(*o)));
                            assert(records_view(records@) =~= sr + kept_records(ov.take(k + 1), res));
                        } else {
                            assert(records_view(records@) =~= sr + kept_records(ov.take(k + 1), res));
                        }
                    },
                    None => {
                        assert(records_view(records@) =~= sr + kept_records(ov.take(k + 1), res));
                    },
                }
            },
            None => {
                assert(records_view(records@) =~= sr + kept_records(ov.take(k + 1), res));
            },
        }
        k = k + 1;
    }
    assert(ov.take(old@.len() as int) =~= ov);
    // Ordered by name.
    let ghost all = records_view(records@);
    let mut names: Vec<String> = Vec::new();
    let mut k: usize = 0;
    while k < records.len()
        invariant
            k <= records@.len(),
            names@.len() == k,
            forall|j: int| 0 <= j < k ==> #[trigger] names@[j]@ == all[j].0,
            all == records_view(records@),
        decreases records@.len() - k,
    {
        assert(all[k as int] == record_view(records@[k as int]));
        assert(record_names(all)[k as int] == all[k as int].0);
        let ghost before = names@;
        names.push(records[k].name.clone());
        assert(names@[k as int]@ == records@[k as int].name@);
        assert(names@.map_values(|s: String| s@)[k as int] == record_names(all)[k as int]);
        assert forall|j: int| 0 <= j < k implies names@.map_values(|s: String| s@)[j] == record_names(all)[j] by {
            assert(names@[j] == before[j]);
            assert(before.map_values(|s: String| s@)[j] == record_names(all).take(k as int)[j]);
        }
        assert(names@.map_values(|s: String| s@) =~= record_names(all).take(k + 1));
        k = k + 1;
    }
    assert(record_names(all).take(records@.len() as int) =~= record_names(all));
    let order = name_order(&names);
    let mut outputs: Vec<OutputRecord> = Vec::new();
    let mut k: usize = 0;
    while k < order.len()
        invariant
            k <= order@.len(),
            name_order_of(record_names(all), order@),
            all == records_view(records@),
            outputs@.len() == k,
            forall|j: int| 0 <= j < k ==> #[trigger] record_view(outputs@[j]) == all[order@[j] as int],
        decreases order@.len() - k,
    {
        let at = order[k];
        assert(at < records@.len());
        assert(all[at as int] == record_view(records@[at as int]));
        let ghost before = outputs@;
        outputs.push(copy_record(&records[at]));
        assert(records_view(outputs@)[k as int] == all[at as int]);
        assert forall|j: int| 0 <= j < k implies records_view(outputs@)[j] == order@.take(k + 1).map_values(
            |i: usize| all[i as int],
        )[j] by {
            assert(outputs@[j] == before[j]);
            assert(records_view(before)[j] == order@.take(k as int).map_values(|i: usize| all[i as int])[j]);
        }
        assert(records_view(outputs@) =~= order@.take(k + 1).map_values(|i: usize| all[i as int]));
        k = k + 1;
    }
    assert(order@.take(order@.len() as int) =~= order@);
    let changed = !same_records(&outputs, old);
    proof {
        let recs = static_records(statics@) + kept_records(records_view(old@), resolved(resources@, bs@));
        assert(all == recs);
        assert(name_order_of(record_names(recs), order@));
        assert(records_view(outputs@) == order@.map_values(|i: usize| recs[i as int]));
    }
    Ok(Interpretation { bindings, outputs, changed })
}

} // verus!

verus! {

/// The protocol checks of an attempt: a static output must be declared, and
/// declared as static; a binding must be of an output declared as observed,
/// and it passes when it names a resource of the attempt whose bound output
/// is observed; a required output must be returned, an optional one never
/// has to be.
pub proof fn law_protocol_checks(
    decls: Seq<ComponentOutput>,
    s: StaticOutput,
    rs: Seq<AttemptResource>,
    b: OutputBinding,
    statics: Seq<StaticOutput>,
    bs: Seq<OutputBinding>,
    d: ComponentOutput,
)
    ensures
        decl_of(decls, s.name@) is None ==> static_problem(decls, s) is Some,
        decl_of(decls, s.name@) matches Some((observed, _)) ==> (static_problem(decls, s) is None <==> !observed),
        decl_of(decls, b.name@) is None ==> binding_problem(decls, rs, b) is Some,
        decl_of(decls, b.name@) matches Some((observed, _)) ==> (!observed ==> binding_problem(decls, rs, b) is Some),
        resource_at(rs, b.resource@) is None ==> binding_problem(decls, rs, b) is Some,
        (decl_of(decls, b.name@) matches Some((observed, _)) && observed) ==> (resource_at(rs, b.resource@) matches Some(
            i,
        ) ==> (binding_problem(decls, rs, b) is None <==> first_observed(rs[i].outputs@, b.output@) == Some(true))),
        d.optional ==> omission(statics, bs, d) is None,
        !d.optional ==> (omission(statics, bs, d) is Some <==> !is_returned(statics, bs, d.name@)),
{
}

/// The old observed records an accepted attempt keeps are exactly those
/// whose resource output the attempt still binds, by its last binding of
/// it, to the same component output.
pub proof fn law_kept_records(old: Seq<RecordView>, res: Seq<(u128, Seq<char>, Seq<char>)>, r: RecordView)
    ensures
        kept_records(old, res).contains(r) <==> old.contains(r) && (r.2 matches Some((id, output)) && last_target(
            res,
            id,
            output,
        ) == Some(r.0)),
    decreases old.len(),
{
    if old.len() > 0 {
        let front = old.drop_last();
        law_kept_records(front, res, r);
        let last = old.last();
        let rest = kept_records(front, res);
        assert(old =~= front.push(last));
        lemma_records_push_contains(front, last, r);
        lemma_records_push_contains(rest, last, r);
    }
}

proof fn lemma_records_push_contains(s: Seq<RecordView>, x: RecordView, y: RecordView)
    ensures
        s.push(x).contains(y) <==> s.contains(y) || x == y,
{
    if s.push(x).contains(y) {
        let i = choose|i: int| 0 <= i < s.len() + 1 && s.push(x)[i] == y;
        if i < s.len() {
            assert(s[i] == y);
        }
    }
    if s.contains(y) {
        let i = choose|i: int| 0 <= i < s.len() && s[i] == y;
        assert(s.push(x)[i] == y);
    }
    assert(s.push(x)[s.len() as int] == x);
}

} // verus!
