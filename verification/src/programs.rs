//! Deterministic component programs for tests: a program lists resources,
//! each built from the input values it requires, and static outputs; a
//! required input that is blocked blocks the whole evaluation.

use vstd::prelude::*;

use crate::evaluation::{
    cell_index, entries_view, find_cell, json_string, json_text, json_view, lemma_entries_view_push, BlockedDetail, EvaluationAttempt, EvaluationRequest, EvaluationResource, InputCell, InputState,
    JsonValue, JsonView, ObservedOutputBinding, OutputRef, StaticOutput,
};
use crate::names::{EvaluationError, KindVersion, ResourceAddress};
use crate::text::text_equal;
use crate::textset::{strictly_ascending, texts, TextSet};

verus! {

/// One resource of a program: its id, name and controller, the inputs its
/// body holds, and the component output it observes, if any.
#[derive(Debug)]
pub struct ResourceProgram {
    pub id: [u8; 16],
    pub name: String,
    pub controller: String,
    pub required_values: Vec<String>,
    pub observed_component_output: Option<String>,
}

/// A component program: its resources and its static outputs, by name in
/// ascending order.
#[derive(Debug)]
pub struct ComponentProgram {
    pub resources: Vec<ResourceProgram>,
    pub static_outputs: Vec<(String, JsonValue)>,
}

/// The cell of the first of `inputs` that the snapshot holds as blocked.
pub open spec fn first_blocked_in(cells: Seq<InputCell>, inputs: Seq<String>) -> Option<int>
    decreases inputs.len(),
{
    if inputs.len() == 0 {
        None
    } else {
        match cell_index(cells, inputs[0]@) {
            Some(c) if cells[c].state is Blocked => Some(c),
            _ => first_blocked_in(cells, inputs.drop_first()),
        }
    }
}

/// The cell of the first blocked input required by any resource, resources
/// in order and each one's inputs in order.
pub open spec fn first_blocked(cells: Seq<InputCell>, resources: Seq<ResourceProgram>) -> Option<int>
    decreases resources.len(),
{
    if resources.len() == 0 {
        None
    } else {
        match first_blocked_in(cells, resources[0].required_values@) {
            Some(c) => Some(c),
            None => first_blocked(cells, resources.drop_first()),
        }
    }
}

fn blocked_in(cells: &Vec<InputCell>, inputs: &Vec<String>) -> (found: Option<usize>)
    ensures
        match found {
            Some(c) => first_blocked_in(cells@, inputs@) == Some(c as int) && c < cells@.len(),
            None => first_blocked_in(cells@, inputs@) is None,
        },
{
    let mut i: usize = 0;
    assert(inputs@.skip(0) =~= inputs@);
    while i < inputs.len()
        invariant
            i <= inputs@.len(),
            first_blocked_in(cells@, inputs@) == first_blocked_in(cells@, inputs@.skip(i as int)),
        decreases inputs@.len() - i,
    {
        let ghost rest = inputs@.skip(i as int);
        assert(rest[0] == inputs@[i as int]);
        assert(rest.drop_first() =~= inputs@.skip(i + 1));
        match find_cell(cells, inputs[i].as_str()) {
            Some(c) => {
                if matches!(cells[c].state, InputState::Blocked) {
                    return Some(c);
                }
            },
            None => {},
        }
        i = i + 1;
    }
    None
}

fn blocked_cell(cells: &Vec<InputCell>, resources: &Vec<ResourceProgram>) -> (found: Option<usize>)
    ensures
        match found {
            Some(c) => first_blocked(cells@, resources@) == Some(c as int) && c < cells@.len(),
            None => first_blocked(cells@, resources@) is None,
        },
{
    let mut i: usize = 0;
    assert(resources@.skip(0) =~= resources@);
    while i < resources.len()
        invariant
            i <= resources@.len(),
            first_blocked(cells@, resources@) == first_blocked(cells@, resources@.skip(i as int)),
        decreases resources@.len() - i,
    {
        let ghost rest = resources@.skip(i as int);
        assert(rest[0] == resources@[i as int]);
        assert(rest.drop_first() =~= resources@.skip(i + 1));
        match blocked_in(cells, &resources[i].required_values) {
            Some(c) => {
                return Some(c);
            },
            None => {},
        }
        i = i + 1;
    }
    None
}

/// The body of a resource: under the name of each cell, in snapshot order,
/// that the resource requires and that is available, its value.
pub open spec fn body_entries(cells: Seq<InputCell>, required: Seq<Seq<char>>) -> Seq<(Seq<char>, JsonView)>
    decreases cells.len(),
{
    if cells.len() == 0 {
        Seq::empty()
    } else {
        let rest = body_entries(cells.drop_last(), required);
        match cells.last().state {
            InputState::Available(v) => if required.contains(cells.last().name@) {
                rest.push((cells.last().name@, json_view(v)))
            } else {
                rest
            },
            _ => rest,
        }
    }
}

fn contains_name(items: &Vec<String>, name: &str) -> (found: bool)
    ensures
        found == texts(items@).contains(name@),
{
    let mut i: usize = 0;
    while i < items.len()
        invariant
            i <= items@.len(),
            forall|k: int| 0 <= k < i ==> items@[k]@ != name@,
        decreases items@.len() - i,
    {
        if text_equal(items[i].as_str(), name) {
            assert(texts(items@)[i as int] == name@);
            return true;
        }
        i = i + 1;
    }
    proof {
        if texts(items@).contains(name@) {
            let k = choose|k: int| 0 <= k < texts(items@).len() && texts(items@)[k] == name@;
            assert(items@[k]@ == name@);
        }
    }
    false
}

fn resource_body(cells: &Vec<InputCell>, required: &Vec<String>) -> (body: JsonValue)
    ensures
        json_view(body) == JsonView::Object(body_entries(cells@, texts(required@))),
{
    let mut entries: Vec<(String, JsonValue)> = Vec::new();
    let mut i: usize = 0;
    while i < cells.len()
        invariant
            i <= cells@.len(),
            entries_view(entries@) == body_entries(cells@.take(i as int), texts(required@)),
        decreases cells@.len() - i,
    {
        let cell = &cells[i];
        proof {
            assert(cells@.take(i + 1).drop_last() =~= cells@.take(i as int));
            assert(cells@.take(i + 1).last() == cells@[i as int]);
        }
        match &cell.state {
            InputState::Available(value) => {
                if contains_name(required, cell.name.as_str()) {
                    let n = cell.name.clone();
                    let v = value.copied();
                    proof {
                        lemma_entries_view_push(entries@, (n, v));
                    }
                    entries.push((n, v));
                }
            },
            _ => {},
        }
        i = i + 1;
    }
    assert(cells@.take(i as int) =~= cells@);
    JsonValue::Object(entries)
}

/// The kind of every program resource: `test/resource`, version one.
pub open spec fn program_kind() -> (Seq<char>, u32) {
    ("test/resource"@, 1)
}

/// What a program's resource becomes in a complete attempt.
pub open spec fn program_resource(request: EvaluationRequest, p: ResourceProgram, x: EvaluationResource) -> bool {
    let body = JsonView::Object(body_entries(request.cells@, texts(p.required_values@)));
    &&& x.id@ == p.id@
    &&& x.component@ == request.component@
    &&& (x.kind.name@, x.kind.version) == program_kind()
    &&& x.name@ == p.name@
    &&& x.controller@ == p.controller@
    &&& json_view(x.body) == body
    &&& x.canonical@ == json_text(body)
    &&& match p.observed_component_output {
        Some(o) => x.outputs@.len() == 1 && x.outputs@[0]@ == o@,
        None => x.outputs@.len() == 0,
    }
}

/// The observed bindings of a program: one per resource that observes a
/// component output, in order, binding that output to the resource's output
/// of the same name.
pub open spec fn program_bindings(resources: Seq<ResourceProgram>) -> Seq<(Seq<char>, Seq<char>)>
    decreases resources.len(),
{
    if resources.len() == 0 {
        Seq::empty()
    } else {
        let rest = program_bindings(resources.drop_last());
        match resources.last().observed_component_output {
            Some(o) => rest.push((o@, resources.last().name@)),
            None => rest,
        }
    }
}

/// Every input some resource requires.
pub open spec fn required_reads(resources: Seq<ResourceProgram>) -> Set<Seq<char>>
    decreases resources.len(),
{
    if resources.len() == 0 {
        Set::empty()
    } else {
        required_reads(resources.drop_last()).union(texts(resources.last().required_values@).to_set())
    }
}

/// Evaluates `program` against `request`. When some required input is
/// blocked, the first such (as `first_blocked` finds it) blocks the attempt:
/// no resources, a read of that input, its source, operation `read value`.
/// Otherwise the attempt is complete: one resource per program resource, as
/// `program_resource` states, the program's static outputs, its bindings,
/// and every required input read once, in ascending order.
pub fn evaluate_program(request: &EvaluationRequest, program: &ComponentProgram) -> (r: Result<
    EvaluationAttempt,
    EvaluationError,
>)
    ensures
        match first_blocked(request.cells@, program.resources@) {
            Some(c) => r matches Ok(EvaluationAttempt::Blocked { resources, blocked, reads }) && {
                let cell = request.cells@[c];
                &&& resources@.len() == 0
                &&& blocked.input@ == cell.name@
                &&& blocked.source.component@ == cell.source.component@
                &&& blocked.source.output@ == cell.source.output@
                &&& blocked.operation@ == "read value"@
                &&& blocked.message@ == "waiting for deterministic input"@
                &&& reads@.len() == 1
                &&& reads@[0]@ == cell.name@
            },
            None => r matches Ok(EvaluationAttempt::Complete { resources, outputs, observed_outputs, reads }) && {
                &&& resources@.len() == program.resources@.len()
                &&& forall|i: int|
                    0 <= i < resources@.len() ==> program_resource(
                        *request,
                        program.resources@[i],
                        #[trigger] resources@[i],
                    )
                &&& outputs@.len() == program.static_outputs@.len()
                &&& forall|i: int|
                    0 <= i < outputs@.len() ==> (#[trigger] outputs@[i]).name@ == program.static_outputs@[i].0@
                        && json_view(outputs@[i].value) == json_view(program.static_outputs@[i].1)
                &&& observed_outputs@.map_values(
                    |b: ObservedOutputBinding| (b.name@, b.resource.name@),
                ) == program_bindings(program.resources@)
                &&& forall|i: int|
                    0 <= i < observed_outputs@.len() ==> (#[trigger] observed_outputs@[i]).output@
                        == observed_outputs@[i].name@ && (
                    observed_outputs@[i].resource.kind.name@,
                    observed_outputs@[i].resource.kind.version,
                ) == program_kind()
                &&& strictly_ascending(texts(reads@))
                &&& texts(reads@).to_set() == required_reads(program.resources@)
            },
        },
{
    match blocked_cell(&request.cells, &program.resources) {
        Some(c) => {
            let cell = &request.cells[c];
            let detail = BlockedDetail {
                input: cell.name.clone(),
                source: OutputRef { component: cell.source.component.clone(), output: cell.source.output.clone() },
                operation: "read value".to_string(),
                message: "waiting for deterministic input".to_string(),
            };
            let mut reads: Vec<String> = Vec::new();
            reads.push(cell.name.clone());
            return Ok(EvaluationAttempt::Blocked { resources: Vec::new(), blocked: detail, reads });
        },
        None => {},
    }
    let mut resources: Vec<EvaluationResource> = Vec::new();
    let mut bindings: Vec<ObservedOutputBinding> = Vec::new();
    let mut reads = TextSet::new();
    let mut i: usize = 0;
    while i < program.resources.len()
        invariant
            i <= program.resources@.len(),
            resources@.len() == i,
            forall|k: int|
                0 <= k < i ==> program_resource(*request, program.resources@[k], #[trigger] resources@[k]),
            bindings@.map_values(|b: ObservedOutputBinding| (b.name@, b.resource.name@)) == program_bindings(
                program.resources@.take(i as int),
            ),
            forall|k: int|
                0 <= k < bindings@.len() ==> (#[trigger] bindings@[k]).output@ == bindings@[k].name@ && (
                    bindings@[k].resource.kind.name@,
                    bindings@[k].resource.kind.version,
                ) == program_kind(),
            reads@ == required_reads(program.resources@.take(i as int)),
        decreases program.resources@.len() - i,
    {
        let p = &program.resources[i];
        proof {
            assert(program.resources@.take(i + 1).drop_last() =~= program.resources@.take(i as int));
            assert(program.resources@.take(i + 1).last() == program.resources@[i as int]);
        }
        let body = resource_body(&request.cells, &p.required_values);
        let canonical = json_string(&body);
        let mut outputs: Vec<String> = Vec::new();
        match &p.observed_component_output {
            Some(o) => {
                outputs.push(o.clone());
                let ghost before = bindings@;
                bindings.push(
                    ObservedOutputBinding {
                        name: o.clone(),
                        resource: ResourceAddress {
                            kind: KindVersion { name: "test/resource".to_string(), version: 1 },
                            name: p.name.clone(),
                        },
                        output: o.clone(),
                    },
                );
                assert(bindings@.map_values(|b: ObservedOutputBinding| (b.name@, b.resource.name@)) =~= before.map_values(
                    |b: ObservedOutputBinding| (b.name@, b.resource.name@),
                ).push((o@, p.name@)));
            },
            None => {},
        }
        resources.push(
            EvaluationResource {
                id: p.id,
                component: request.component.clone(),
                kind: KindVersion { name: "test/resource".to_string(), version: 1 },
                name: p.name.clone(),
                controller: p.controller.clone(),
                body,
                canonical,
                outputs,
            },
        );
        let ghost old_reads = reads@;
        let mut k: usize = 0;
        while k < p.required_values.len()
            invariant
                k <= p.required_values@.len(),
                reads@ == old_reads.union(texts(p.required_values@.take(k as int)).to_set()),
            decreases p.required_values@.len() - k,
        {
            let name = p.required_values[k].clone();
            proof {
                assert(texts(p.required_values@.take(k + 1)) =~= texts(p.required_values@.take(k as int)).push(name@));
                assert(texts(p.required_values@.take(k + 1)).to_set() =~= texts(p.required_values@.take(k as int)).to_set().insert(
                    name@,
                )) by {
                    let t = texts(p.required_values@.take(k as int));
                    assert forall|x| t.push(name@).to_set().contains(x) <==> t.to_set().insert(name@).contains(x) by {
                        if t.push(name@).to_set().contains(x) {
                            let q = choose|q: int| 0 <= q < t.push(name@).len() && t.push(name@)[q] == x;
                            if q < t.len() {
                                assert(t[q] == x);
                            }
                        }
                        if t.to_set().contains(x) {
                            let q = choose|q: int| 0 <= q < t.len() && t[q] == x;
                            assert(t.push(name@)[q] == x);
                        }
                        if x == name@ {
                            assert(t.push(name@)[t.len() as int] == x);
                        }
                    }
                }
            }
            reads.insert(name);
            proof {
                assert(reads@ =~= old_reads.union(texts(p.required_values@.take(k + 1)).to_set()));
            }
            k = k + 1;
        }
        assert(p.required_values@.take(k as int) =~= p.required_values@);
        i = i + 1;
    }
    assert(program.resources@.take(i as int) =~= program.resources@);
    let mut outputs: Vec<StaticOutput> = Vec::new();
    let mut j: usize = 0;
    while j < program.static_outputs.len()
        invariant
            j <= program.static_outputs@.len(),
            outputs@.len() == j,
            forall|q: int|
                0 <= q < j ==> (#[trigger] outputs@[q]).name@ == program.static_outputs@[q].0@ && json_view(
                    outputs@[q].value,
                ) == json_view(program.static_outputs@[q].1),
        decreases program.static_outputs@.len() - j,
    {
        let name = program.static_outputs[j].0.clone();
        let value = program.static_outputs[j].1.copied();
        outputs.push(StaticOutput { name, value });
        j = j + 1;
    }
    let reads = reads.into_items();
    Ok(EvaluationAttempt::Complete { resources, outputs, observed_outputs: bindings, reads })
}

} // verus!
