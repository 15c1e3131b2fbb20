//! Planned resources as controllers see them, and the outputs that a
//! controller observes on them.

use vstd::prelude::*;

verus! {

/// A 32-byte content digest, as two 128-bit halves.
#[derive(Clone, Copy, Debug, PartialEq, Eq, Structural)]
pub struct ContentDigest {
    pub high: u128,
    pub low: u128,
}

/// Whether a resource should exist or be gone.
#[derive(Clone, Copy, Debug, PartialEq, Eq, Structural)]
pub enum ResourceGoal {
    Present,
    Absent,
}

/// An output that a resource declares, and whether a controller observes it
/// (rather than the component computing it).
#[derive(Clone, Debug)]
pub struct OutputDeclaration {
    pub name: String,
    pub observed: bool,
}

/// A planned resource: its id, the controller that owns it, its kind, the
/// digest of its desired body, its display path and its declared outputs.
#[derive(Clone, Debug)]
pub struct Resource {
    pub id: u128,
    pub controller: String,
    pub kind_name: String,
    pub kind_version: u32,
    pub digest: ContentDigest,
    pub path: String,
    pub outputs: Vec<OutputDeclaration>,
}

/// An output value that a controller observed on a resource.
#[derive(Clone, Debug, PartialEq, Eq)]
pub struct ObservedOutput {
    pub resource: u128,
    pub name: String,
    pub value: String,
}

/// What a converged resource reports: its observed outputs and the bytes
/// that identify the observed state.
#[derive(Clone, Debug)]
pub struct ResourceConvergence {
    pub outputs: Vec<ObservedOutput>,
    pub evidence: Vec<u8>,
}

/// A controller output could not be built.
#[derive(Clone, Debug)]
pub enum ReportBuildError {
    Output(String),
}

/// The declared output names of a resource, in declaration order.
pub open spec fn declared_names(r: Resource) -> Seq<Seq<char>> {
    r.outputs@.map_values(|d: OutputDeclaration| d.name@)
}

/// `i` is the first declaration named `name`.
pub open spec fn first_declaration(r: Resource, name: Seq<char>, i: int) -> bool {
    0 <= i < r.outputs@.len() && r.outputs@[i].name@ == name && forall|k: int| 0 <= k < i ==> r.outputs@[k].name@ != name
}

/// Whether the first declaration named `name` is observed; none when no
/// declaration carries the name.
pub open spec fn first_observed(outputs: Seq<OutputDeclaration>, name: Seq<char>) -> Option<bool>
    decreases outputs.len(),
{
    if outputs.len() == 0 {
        None
    } else if outputs[0].name@ == name {
        Some(outputs[0].observed)
    } else {
        first_observed(outputs.drop_first(), name)
    }
}

/// Finds the first declaration of `name` on `resource`.
pub fn find_declaration(resource: &Resource, name: &str) -> (found: Option<usize>)
    ensures
        found matches Some(i) ==> first_declaration(*resource, name@, i as int),
        found is None ==> forall|k: int| 0 <= k < resource.outputs@.len() ==> resource.outputs@[k].name@ != name@,
        found matches Some(i) ==> first_observed(resource.outputs@, name@) == Some(resource.outputs@[i as int].observed),
        found is None ==> first_observed(resource.outputs@, name@) is None,
{
    let n = resource.outputs.len();
    let mut i: usize = 0;
    assert(resource.outputs@.skip(0) =~= resource.outputs@);
    while i < n
        invariant
            n == resource.outputs@.len(),
            i <= n,
            forall|k: int| 0 <= k < i ==> resource.outputs@[k].name@ != name@,
            first_observed(resource.outputs@, name@) == first_observed(resource.outputs@.skip(i as int), name@),
        decreases n - i,
    {
        if crate::text::text_equal(resource.outputs[i].name.as_str(), name) {
            return Some(i);
        }
        assert(resource.outputs@.skip(i as int).drop_first() =~= resource.outputs@.skip(i + 1));
        i = i + 1;
    }
    None
}

/// Builds the observed output `name` of `resource`: refused when the
/// resource does not declare it, or declares it as not observed.
pub fn output(resource: &Resource, name: &str, value: String) -> (out: Result<ObservedOutput, ReportBuildError>)
    ensures
        (forall|k: int| 0 <= k < resource.outputs@.len() ==> resource.outputs@[k].name@ != name@) ==> (out matches Err(
            ReportBuildError::Output(m),
        ) && m@ == resource.path@ + " does not declare output "@ + name@),
        forall|i: int| first_declaration(*resource, name@, i) ==> {
            &&& !resource.outputs@[i].observed ==> (out matches Err(ReportBuildError::Output(m)) && m@ == resource.path@
                + "."@ + name@ + " is not an observed output"@)
            &&& resource.outputs@[i].observed ==> (out matches Ok(o) && o.resource == resource.id && o.name@ == name@
                && o.value@ == value@)
        },
{
    match find_declaration(resource, name) {
        None => {
            let mut m = resource.path.clone();
            m.append(" does not declare output ");
            m.append(name);
            Err(ReportBuildError::Output(m))
        },
        Some(i) => {
            proof {
                assert forall|j: int| first_declaration(*resource, name@, j) implies j == i by {
                    if j < i {
                    } else if j > i {
                    }
                }
            }
            if !resource.outputs[i].observed {
                let mut m = resource.path.clone();
                m.append(".");
                m.append(name);
                m.append(" is not an observed output");
                Err(ReportBuildError::Output(m))
            } else {
                Ok(ObservedOutput { resource: resource.id, name: String::from_str(name), value })
            }
        },
    }
}


/// The outputs that a converged resource reports from candidate
/// (name, value) pairs, in candidate order: a candidate is reported when the
/// resource declares it; a declared candidate that is not an observed
/// output is an error.
pub open spec fn collect_outputs(r: Resource, cands: Seq<(Seq<char>, Seq<char>)>) -> Result<
    Seq<(Seq<char>, Seq<char>)>,
    Seq<char>,
>
    decreases cands.len(),
{
    if cands.len() == 0 {
        Ok(Seq::empty())
    } else {
        let name = cands[0].0;
        let rest = collect_outputs(r, cands.drop_first());
        match first_observed(r.outputs@, name) {
            Some(true) => match rest {
                Ok(s) => Ok(seq![cands[0]] + s),
                Err(e) => Err(e),
            },
            Some(false) => Err("cannot build controller output: "@ + r.path@ + "."@ + name + " is not an observed output"@),
            None => rest,
        }
    }
}

/// The name and value of every output, in order.
pub open spec fn output_pairs(outputs: Seq<ObservedOutput>) -> Seq<(Seq<char>, Seq<char>)> {
    outputs.map_values(|o: ObservedOutput| (o.name@, o.value@))
}

/// Collects the declared outputs among `names`/`values`, as
/// `collect_outputs` states.
#[verifier::rlimit(40)]
pub fn collect(resource: &Resource, names: &Vec<&str>, values: &Vec<String>) -> (out: Result<Vec<ObservedOutput>, String>)
    requires
        names@.len() == values@.len(),
    ensures
        ({
            let cands = Seq::new(names@.len(), |i: int| (names@[i]@, values@[i]@));
            match collect_outputs(*resource, cands) {
                Ok(s) => out matches Ok(o) && output_pairs(o@) == s && forall|k: int|
                    0 <= k < o@.len() ==> (#[trigger] o@[k]).resource == resource.id,
                Err(m) => out matches Err(e) && e@ == m,
            }
        }),
{
    let ghost cands = Seq::new(names@.len(), |i: int| (names@[i]@, values@[i]@));
    let n = names.len();
    let mut i: usize = n;
    let mut acc: Vec<ObservedOutput> = Vec::new();
    // Built back to front so that the state matches the recursive statement
    // of `collect_outputs` on each suffix.
    assert(cands.skip(n as int) =~= Seq::<(Seq<char>, Seq<char>)>::empty());
    let mut failure: Option<String> = None;
    while i > 0
        invariant
            n == names@.len(),
            n == values@.len(),
            cands == Seq::new(names@.len(), |i: int| (names@[i]@, values@[i]@)),
            i <= n,
            match collect_outputs(*resource, cands.skip(i as int)) {
                Ok(s) => failure is None && output_pairs(acc@) == s,
                Err(m) => failure matches Some(e) && e@ == m,
            },
            forall|k: int| 0 <= k < acc@.len() ==> (#[trigger] acc@[k]).resource == resource.id,
        decreases i,
    {
        i = i - 1;
        let name = names[i];
        let ghost suffix = cands.skip(i as int);
        assert(suffix.drop_first() =~= cands.skip(i + 1));
        assert(suffix[0] == (name@, values@[i as int]@));
        match find_declaration(resource, name) {
            None => {
                proof {
                    assert(collect_outputs(*resource, suffix) == collect_outputs(*resource, cands.skip(i + 1)));
                }
            },
            Some(d) => {
                if resource.outputs[d].observed {
                    if failure.is_none() {
                        let ghost before = acc@;
                        let item = ObservedOutput {
                            resource: resource.id,
                            name: String::from_str(name),
                            value: values[i].clone(),
                        };
                        let mut next: Vec<ObservedOutput> = Vec::new();
                        next.push(item);
                        let mut rest = acc;
                        next.append(&mut rest);
                        acc = next;
                        assert(output_pairs(acc@) =~= seq![suffix[0]] + output_pairs(before));
                        assert(collect_outputs(*resource, suffix) == Ok::<Seq<(Seq<char>, Seq<char>)>, Seq<char>>(
                            seq![suffix[0]] + output_pairs(before),
                        ));
                        assert forall|k: int| 0 <= k < acc@.len() implies (#[trigger] acc@[k]).resource == resource.id by {
                            if k > 0 {
                                assert(acc@[k] == before[k - 1]);
                            }
                        }
                    } else {
                        assert(collect_outputs(*resource, suffix) == collect_outputs(*resource, cands.skip(i + 1)));
                    }
                } else {
                    let mut m = String::from_str("cannot build controller output: ");
                    m.append(resource.path.as_str());
                    m.append(".");
                    m.append(name);
                    m.append(" is not an observed output");
                    assert(collect_outputs(*resource, suffix) == Err::<Seq<(Seq<char>, Seq<char>)>, Seq<char>>(m@));
                    failure = Some(m);
                }
            },
        }
    }
    assert(cands.skip(0) =~= cands);
    match failure {
        Some(m) => Err(m),
        None => Ok(acc),
    }
}




/// A resource as plain values.
pub struct ResourceView {
    pub id: u128,
    pub controller: Seq<char>,
    pub kind_name: Seq<char>,
    pub kind_version: u32,
    pub digest: ContentDigest,
    pub path: Seq<char>,
    pub outputs: Seq<(Seq<char>, bool)>,
}

/// Output declarations as (name, observed) pairs.
pub open spec fn declarations_view(d: Seq<OutputDeclaration>) -> Seq<(Seq<char>, bool)> {
    d.map_values(|o: OutputDeclaration| (o.name@, o.observed))
}

impl View for Resource {
    type V = ResourceView;

    open spec fn view(&self) -> ResourceView {
        ResourceView {
            id: self.id,
            controller: self.controller@,
            kind_name: self.kind_name@,
            kind_version: self.kind_version,
            digest: self.digest,
            path: self.path@,
            outputs: declarations_view(self.outputs@),
        }
    }
}

/// Resources as plain values.
pub open spec fn resources_view(r: Seq<Resource>) -> Seq<ResourceView> {
    r.map_values(|x: Resource| x@)
}

/// An observed output as plain values.
pub open spec fn observed_view(o: ObservedOutput) -> (u128, Seq<char>, Seq<char>) {
    (o.resource, o.name@, o.value@)
}

/// Observed outputs as plain values.
pub open spec fn observed_outputs_view(o: Seq<ObservedOutput>) -> Seq<(u128, Seq<char>, Seq<char>)> {
    o.map_values(|x: ObservedOutput| observed_view(x))
}

impl Resource {
    /// A copy of this resource.
    pub fn copied(&self) -> (copy: Resource)
        ensures
            copy@ == self@,
    {
        let mut outputs: Vec<OutputDeclaration> = Vec::new();
        let n = self.outputs.len();
        let mut i: usize = 0;
        while i < n
            invariant
                n == self.outputs@.len(),
                i <= n,
                outputs@.len() == i,
                declarations_view(outputs@) == declarations_view(self.outputs@).take(i as int),
            decreases n - i,
        {
            let d = &self.outputs[i];
            outputs.push(OutputDeclaration { name: d.name.clone(), observed: d.observed });
            assert(declarations_view(outputs@)[i as int] == declarations_view(self.outputs@)[i as int]);
            assert(declarations_view(outputs@) =~= declarations_view(self.outputs@).take(i + 1));
            i = i + 1;
        }
        assert(declarations_view(self.outputs@).take(n as int) =~= declarations_view(self.outputs@));
        Resource {
            id: self.id,
            controller: self.controller.clone(),
            kind_name: self.kind_name.clone(),
            kind_version: self.kind_version,
            digest: self.digest,
            path: self.path.clone(),
            outputs,
        }
    }
}

/// A copy of every resource, in order.
pub fn copy_resources(resources: &Vec<Resource>) -> (copy: Vec<Resource>)
    ensures
        resources_view(copy@) == resources_view(resources@),
{
    let mut out: Vec<Resource> = Vec::new();
    let n = resources.len();
    let mut i: usize = 0;
    while i < n
        invariant
            n == resources@.len(),
            i <= n,
            out@.len() == i,
            resources_view(out@) == resources_view(resources@).take(i as int),
        decreases n - i,
    {
        out.push(resources[i].copied());
        assert(resources_view(out@)[i as int] == resources_view(resources@)[i as int]);
        assert(resources_view(out@) =~= resources_view(resources@).take(i + 1));
        i = i + 1;
    }
    assert(resources_view(resources@).take(n as int) =~= resources_view(resources@));
    out
}

/// A copy of every observed output, in order.
pub fn copy_outputs(outputs: &Vec<ObservedOutput>) -> (copy: Vec<ObservedOutput>)
    ensures
        observed_outputs_view(copy@) == observed_outputs_view(outputs@),
{
    let mut out: Vec<ObservedOutput> = Vec::new();
    let n = outputs.len();
    let mut i: usize = 0;
    while i < n
        invariant
            n == outputs@.len(),
            i <= n,
            out@.len() == i,
            observed_outputs_view(out@) == observed_outputs_view(outputs@).take(i as int),
        decreases n - i,
    {
        let o = &outputs[i];
        out.push(ObservedOutput { resource: o.resource, name: o.name.clone(), value: o.value.clone() });
        assert(observed_outputs_view(out@)[i as int] == observed_outputs_view(outputs@)[i as int]);
        assert(observed_outputs_view(out@) =~= observed_outputs_view(outputs@).take(i + 1));
        i = i + 1;
    }
    assert(observed_outputs_view(outputs@).take(n as int) =~= observed_outputs_view(outputs@));
    out
}

} // verus!
