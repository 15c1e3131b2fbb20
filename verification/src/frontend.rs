//! The Git workflow frontend: graph intent files on a deploy branch become
//! create, update and retire calls of the graph service. A file named after
//! its graph holds the graph's name, its components and the generation the
//! service last acknowledged (zero to create); a removed file retires the
//! graph.

use vstd::prelude::*;

use crate::fmt::{debug_quoted, debug_quoted_text, decimal, decimal_text};
use crate::stores::{git_error_text, GitError};
use crate::text::{chars_lt, compare_text, lemma_chars_lt_total, lemma_chars_lt_transitive, text_equal, Precedence};

verus! {

/// One component of an intent: its name and bundle digest.
#[derive(Clone, Debug, PartialEq, Eq)]
pub struct ComponentIntent {
    pub name: Option<String>,
    pub bundle_digest: Option<Vec<u8>>,
}

/// A graph intent file: schema version, graph identity, display name, the
/// generation last acknowledged, and the components.
#[derive(Clone, Debug, PartialEq, Eq)]
pub struct GraphIntentFile {
    pub schema: u32,
    pub graph: String,
    pub name: String,
    pub generation: u64,
    pub components: Vec<ComponentIntent>,
}

/// What the graph service reports of a graph after a call.
#[derive(Clone, Debug, PartialEq, Eq)]
pub struct GraphStatusReply {
    pub graph_id: Option<String>,
    pub generation: Option<u64>,
}

/// Why a poll failed.
#[derive(Clone, Debug, PartialEq, Eq)]
pub enum GitSyncError {
    Service(String),
    Decode(String),
    Encode(String),
    Git(GitError),
}

/// A component as plain values.
pub open spec fn component_view(c: ComponentIntent) -> (Option<Seq<char>>, Option<Seq<u8>>) {
    (
        match c.name {
            Some(n) => Some(n@),
            None => None,
        },
        match c.bundle_digest {
            Some(d) => Some(d@),
            None => None,
        },
    )
}

/// An intent file as plain values.
pub struct IntentView {
    pub schema: u32,
    pub graph: Seq<char>,
    pub name: Seq<char>,
    pub generation: u64,
    pub components: Seq<(Option<Seq<char>>, Option<Seq<u8>>)>,
}

/// An intent file as plain values.
pub open spec fn intent_view(f: GraphIntentFile) -> IntentView {
    IntentView {
        schema: f.schema,
        graph: f.graph@,
        name: f.name@,
        generation: f.generation,
        components: f.components@.map_values(|c: ComponentIntent| component_view(c)),
    }
}

/// A component names itself and its bundle.
pub open spec fn component_complete(c: (Option<Seq<char>>, Option<Seq<u8>>)) -> bool {
    (c.0 matches Some(n) && n.len() > 0) && (c.1 matches Some(d) && d.len() > 0)
}

/// What checking an intent file answers: the first rule it breaks.
pub open spec fn intent_problem(f: IntentView) -> Option<Seq<char>> {
    if f.schema != 1 {
        Some("graph "@ + f.graph + " uses unsupported intent-file schema "@ + decimal(f.schema as nat) + "; expected 1"@)
    } else if f.name.len() == 0 {
        Some("graph "@ + f.graph + " requires a name"@)
    } else if exists|i: int| 0 <= i < f.components.len() && !component_complete(#[trigger] f.components[i]) {
        Some("graph "@ + f.graph + " components require public ComponentIntent name and bundle_digest fields"@)
    } else {
        None
    }
}

fn decode_error(graph: &str, before: &str, after: &str) -> (e: GitSyncError)
    ensures
        e matches GitSyncError::Decode(m) && m@ == before@ + graph@ + after@,
{
    let mut m = before.to_string();
    m.append(graph);
    m.append(after);
    GitSyncError::Decode(m)
}

/// Checks an intent file, as `intent_problem` states.
pub fn validate(intent: &GraphIntentFile) -> (r: Result<(), GitSyncError>)
    ensures
        match intent_problem(intent_view(*intent)) {
            None => r is Ok,
            Some(m) => r matches Err(GitSyncError::Decode(t)) && t@ == m,
        },
{
    let ghost v = intent_view(*intent);
    if intent.schema != 1 {
        let mut m = String::from_str("graph ");
        m.append(intent.graph.as_str());
        m.append(" uses unsupported intent-file schema ");
        let s = decimal_text(intent.schema as u64);
        m.append(s.as_str());
        m.append("; expected 1");
        return Err(GitSyncError::Decode(m));
    }
    if intent.name.unicode_len() == 0 {
        return Err(decode_error(intent.graph.as_str(), "graph ", " requires a name"));
    }
    let n = intent.components.len();
    let mut i: usize = 0;
    while i < n
        invariant
            n == intent.components@.len(),
            v == intent_view(*intent),
            v.schema == 1,
            v.name.len() > 0,
            i <= n,
            forall|k: int| 0 <= k < i ==> component_complete(#[trigger] v.components[k]),
        decreases n - i,
    {
        let c = &intent.components[i];
        let named = match &c.name {
            Some(name) => name.unicode_len() > 0,
            None => false,
        };
        let pinned = match &c.bundle_digest {
            Some(d) => d.len() > 0,
            None => false,
        };
        assert(v.components[i as int] == component_view(*c));
        if !named || !pinned {
            assert(!component_complete(v.components[i as int]));
            return Err(
                decode_error(
                    intent.graph.as_str(),
                    "graph ",
                    " components require public ComponentIntent name and bundle_digest fields",
                ),
            );
        }
        i = i + 1;
    }
    Ok(())
}

/// The reply is about `graph`, as `validate_status` checks it.
pub open spec fn status_problem(graph: Seq<char>, reply: GraphStatusReply) -> Option<Seq<char>> {
    match reply.graph_id {
        None => Some("GraphService status omitted graph_id"@),
        Some(actual) => if actual@ != graph {
            Some("GraphService returned status for "@ + actual@ + ", expected "@ + graph)
        } else {
            None
        },
    }
}

/// Checks that a reply is about `graph`.
pub fn validate_status(graph: &str, reply: &GraphStatusReply) -> (r: Result<(), GitSyncError>)
    ensures
        match status_problem(graph@, *reply) {
            None => r is Ok,
            Some(m) => r matches Err(GitSyncError::Service(t)) && t@ == m,
        },
{
    match &reply.graph_id {
        None => Err(GitSyncError::Service(String::from_str("GraphService status omitted graph_id"))),
        Some(actual) => {
            if !text_equal(actual.as_str(), graph) {
                let mut m = String::from_str("GraphService returned status for ");
                m.append(actual.as_str());
                m.append(", expected ");
                m.append(graph);
                Err(GitSyncError::Service(m))
            } else {
                Ok(())
            }
        },
    }
}

/// Records the generation a create or update returned in the intent file,
/// so that it guards the file's next edit: the reply must be about the
/// file's graph and carry a non-zero generation.
pub fn acknowledge(intent: &mut GraphIntentFile, reply: &GraphStatusReply) -> (r: Result<(), GitSyncError>)
    ensures
        status_problem(old(intent).graph@, *reply) matches Some(m) ==> (r matches Err(GitSyncError::Service(t)) && t@ == m
            && *final(intent) == *old(intent)),
        status_problem(old(intent).graph@, *reply) is None && reply.generation is None ==> (r matches Err(GitSyncError::Service(t))
            && t@ == "GraphService status for "@ + old(intent).graph@ + " omitted generation"@ && *final(intent) == *old(intent)),
        status_problem(old(intent).graph@, *reply) is None && reply.generation == Some(0u64) ==> (r matches Err(
            GitSyncError::Service(t),
        ) && t@ == "GraphService returned generation zero for "@ + old(intent).graph@ && *final(intent) == *old(intent)),
        status_problem(old(intent).graph@, *reply) is None && (reply.generation matches Some(g) && g != 0) ==> r is Ok && *final(intent)
            == (GraphIntentFile { generation: reply.generation->0, ..*old(intent) }),
{
    match validate_status(intent.graph.as_str(), reply) {
        Err(e) => return Err(e),
        Ok(()) => {},
    }
    match reply.generation {
        None => {
            let mut m = String::from_str("GraphService status for ");
            m.append(intent.graph.as_str());
            m.append(" omitted generation");
            Err(GitSyncError::Service(m))
        },
        Some(g) => {
            if g == 0 {
                let mut m = String::from_str("GraphService returned generation zero for ");
                m.append(intent.graph.as_str());
                Err(GitSyncError::Service(m))
            } else {
                intent.generation = g;
                Ok(())
            }
        },
    }
}

// === The intent files of one poll ===

/// Intent files as plain values.
pub open spec fn views_of(files: Seq<GraphIntentFile>) -> Seq<IntentView> {
    files.map_values(|f: GraphIntentFile| intent_view(f))
}

/// Intent files keyed by graph, in ascending graph order.
#[derive(Debug)]
pub struct IntentSet {
    files: Vec<GraphIntentFile>,
}

/// The graphs of `files`, in order.
pub open spec fn graphs_of(files: Seq<GraphIntentFile>) -> Seq<Seq<char>> {
    files.map_values(|f: GraphIntentFile| f.graph@)
}

/// Each graph comes strictly after the one before it.
pub open spec fn graphs_ascending(g: Seq<Seq<char>>) -> bool {
    forall|i: int, j: int| 0 <= i < j < g.len() ==> chars_lt(g[i], g[j])
}

/// The file of `graph` among `files`, if any.
pub open spec fn file_of(files: Seq<IntentView>, graph: Seq<char>) -> Option<IntentView>
    decreases files.len(),
{
    if files.len() == 0 {
        None
    } else if files[0].graph == graph {
        Some(files[0])
    } else {
        file_of(files.drop_first(), graph)
    }
}

impl IntentSet {
    #[verifier::type_invariant]
    closed spec fn well_formed(&self) -> bool {
        graphs_ascending(graphs_of(self.files@))
    }

    /// The files in ascending graph order.
    pub closed spec fn ordered(&self) -> Seq<IntentView> {
        views_of(self.files@)
    }

    /// No files.
    pub fn new() -> (set: Self)
        ensures
            set.ordered().len() == 0,
    {
        let set = IntentSet { files: Vec::new() };
        assert(set.ordered() =~= Seq::<IntentView>::empty());
        set
    }

    /// The files in ascending graph order.
    pub fn files(&self) -> (files: &Vec<GraphIntentFile>)
        ensures
            views_of(files@) == self.ordered(),
            graphs_ascending(graphs_of(files@)),
    {
        proof {
            use_type_invariant(self);
        }
        &self.files
    }

    fn position(&self, graph: &str) -> (r: (bool, usize))
        ensures
            r.1 <= self.files@.len(),
            forall|j: int| 0 <= j < r.1 ==> chars_lt(#[trigger] graphs_of(self.files@)[j], graph@),
            forall|j: int| r.1 < j < self.files@.len() ==> chars_lt(graph@, #[trigger] graphs_of(self.files@)[j]),
            r.0 ==> r.1 < self.files@.len() && graphs_of(self.files@)[r.1 as int] == graph@,
            !r.0 ==> (r.1 < self.files@.len() ==> chars_lt(graph@, graphs_of(self.files@)[r.1 as int])),
    {
        proof {
            use_type_invariant(self);
        }
        let ghost g = graphs_of(self.files@);
        let n = self.files.len();
        let mut i: usize = 0;
        while i < n
            invariant
                n == self.files@.len(),
                g == graphs_of(self.files@),
                graphs_ascending(g),
                i <= n,
                forall|j: int| 0 <= j < i ==> chars_lt(#[trigger] g[j], graph@),
            decreases n - i,
        {
            assert(g[i as int] == self.files@[i as int].graph@);
            proof {
                lemma_chars_lt_total(g[i as int], graph@);
            }
            match compare_text(self.files[i].graph.as_str(), graph) {
                Precedence::Before => {},
                Precedence::Same => {
                    return (true, i);
                },
                Precedence::After => {
                    proof {
                        assert forall|j: int| i < j < n implies chars_lt(graph@, #[trigger] g[j]) by {
                            lemma_chars_lt_transitive(graph@, g[i as int], g[j]);
                        }
                    }
                    return (false, i);
                },
            }
            i = i + 1;
        }
        (false, n)
    }

    /// Accepts the intent file found at `path`: it must pass `validate`, be
    /// named after its graph, and name a graph no earlier file named.
    pub fn accept_file(&mut self, path: &str, file: GraphIntentFile) -> (r: Result<(), GitSyncError>)
        ensures
            intent_problem(intent_view(file)) matches Some(m) ==> (r matches Err(GitSyncError::Decode(t)) && t@ == m),
            intent_problem(intent_view(file)) is None && path@ != file.graph@ + ".toml"@ ==> (r matches Err(
                GitSyncError::Decode(t),
            ) && t@ == path@ + ": graph identity requires filename "@ + file.graph@ + ".toml"@),
            intent_problem(intent_view(file)) is None && path@ == file.graph@ + ".toml"@ && file_of(
                old(self).ordered(),
                file.graph@,
            ) is Some ==> (r matches Err(GitSyncError::Decode(t)) && t@ == "duplicate graph identity in "@ + path@),
            r is Err ==> final(self).ordered() == old(self).ordered(),
            r is Ok ==> intent_problem(intent_view(file)) is None && path@ == file.graph@ + ".toml"@ && file_of(
                old(self).ordered(),
                file.graph@,
            ) is None,
            r is Ok ==> forall|g: Seq<char>| #[trigger] file_of(final(self).ordered(), g) == if g == file.graph@ {
                Some(intent_view(file))
            } else {
                file_of(old(self).ordered(), g)
            },
    {
        proof {
            use_type_invariant(&*self);
        }
        match validate(&file) {
            Err(e) => return Err(e),
            Ok(()) => {},
        }
        let mut expected = file.graph.clone();
        expected.append(".toml");
        if !text_equal(path, expected.as_str()) {
            let mut m = path.to_string();
            m.append(": graph identity requires filename ");
            m.append(expected.as_str());
            return Err(GitSyncError::Decode(m));
        }
        let (found, at) = self.position(file.graph.as_str());
        let ghost before = self.files@;
        proof {
            lemma_file_of_sorted(before, file.graph@, found, at as int);
            if !found {
                assert forall|j: int| 0 <= j < before.len() implies before[j].graph@ != file.graph@ by {
                    assert(graphs_of(before)[j] == before[j].graph@);
                    lemma_chars_lt_total(before[j].graph@, file.graph@);
                }
            }
        }
        if found {
            let mut m = String::from_str("duplicate graph identity in ");
            m.append(path);
            return Err(GitSyncError::Decode(m));
        }
        let mut files: Vec<GraphIntentFile> = Vec::new();
        std::mem::swap(&mut files, &mut self.files);
        let ghost fv = file;
        files.insert(at, file);
        proof {
            let after = files@;
            assert(after == before.insert(at as int, fv));
            assert forall|i: int, j: int| 0 <= i < j < after.len() implies chars_lt(graphs_of(after)[i], graphs_of(after)[j]) by {
                assert(graphs_of(after)[i] == after[i].graph@);
                assert(graphs_of(after)[j] == after[j].graph@);
                if i < before.len() {
                    assert(graphs_of(before)[i] == before[i].graph@);
                }
                if j - 1 >= 0 && j - 1 < before.len() {
                    assert(graphs_of(before)[j - 1] == before[j - 1].graph@);
                }
                if j < before.len() {
                    assert(graphs_of(before)[j] == before[j].graph@);
                }
                if i - 1 >= 0 && i - 1 < before.len() {
                    assert(graphs_of(before)[i - 1] == before[i - 1].graph@);
                }
                if j < at {
                    assert(after[i] == before[i]);
                    assert(after[j] == before[j]);
                } else if j == at {
                    assert(after[i] == before[i]);
                } else if i < at {
                    assert(after[i] == before[i]);
                    assert(after[j] == before[j - 1]);
                    lemma_chars_lt_transitive(graphs_of(before)[i], fv.graph@, graphs_of(before)[j - 1]);
                } else if i == at {
                    assert(after[j] == before[j - 1]);
                } else {
                    assert(after[i] == before[i - 1]);
                    assert(after[j] == before[j - 1]);
                }
            }
            lemma_file_of_insert(before, at as int, fv);
        }
        self.files = files;
        Ok(())
    }

    /// The file of `graph`, if any.
    pub fn get(&self, graph: &str) -> (file: Option<&GraphIntentFile>)
        ensures
            file matches Some(f) ==> file_of(self.ordered(), graph@) == Some(intent_view(*f)),
            file is None ==> file_of(self.ordered(), graph@) is None,
    {
        proof {
            use_type_invariant(self);
        }
        let (found, at) = self.position(graph);
        proof {
            lemma_file_of_sorted(self.files@, graph@, found, at as int);
        }
        if found {
            Some(&self.files[at])
        } else {
            None
        }
    }

    /// Replaces the file of the graph of `file`, which the set holds.
    pub fn replace(&mut self, file: GraphIntentFile) -> (r: bool)
        ensures
            r == (file_of(old(self).ordered(), file.graph@) is Some),
            r ==> forall|g: Seq<char>| #[trigger] file_of(final(self).ordered(), g) == if g == file.graph@ {
                Some(intent_view(file))
            } else {
                file_of(old(self).ordered(), g)
            },
            !r ==> final(self).ordered() == old(self).ordered(),
    {
        proof {
            use_type_invariant(&*self);
        }
        let (found, at) = self.position(file.graph.as_str());
        let ghost before = self.files@;
        proof {
            lemma_file_of_sorted(before, file.graph@, found, at as int);
            assert forall|j: int| 0 <= j < at implies before[j].graph@ != file.graph@ by {
                assert(graphs_of(before)[j] == before[j].graph@);
                lemma_chars_lt_total(before[j].graph@, file.graph@);
            }
            if found {
                assert(graphs_of(before)[at as int] == before[at as int].graph@);
            }
        }
        if !found {
            return false;
        }
        let mut files: Vec<GraphIntentFile> = Vec::new();
        std::mem::swap(&mut files, &mut self.files);
        let ghost fv = file;
        files.set(at, file);
        proof {
            let after = files@;
            assert(after == before.update(at as int, fv));
            assert(graphs_of(after) =~= graphs_of(before));
            lemma_file_of_update(before, at as int, fv);
        }
        self.files = files;
        true
    }
}

proof fn lemma_file_of_sorted(files: Seq<GraphIntentFile>, graph: Seq<char>, found: bool, at: int)
    requires
        graphs_ascending(graphs_of(files)),
        0 <= at <= files.len(),
        forall|j: int| 0 <= j < at ==> chars_lt(#[trigger] graphs_of(files)[j], graph),
        forall|j: int| at < j < files.len() ==> chars_lt(graph, #[trigger] graphs_of(files)[j]),
        found ==> at < files.len() && graphs_of(files)[at] == graph,
        !found ==> (at < files.len() ==> chars_lt(graph, graphs_of(files)[at])),
    ensures
        found ==> file_of(views_of(files), graph) == Some(intent_view(files[at])),
        !found ==> file_of(views_of(files), graph) is None,
    decreases files.len(),
{
    let v = views_of(files);
    if files.len() > 0 {
        let rest = files.drop_first();
        assert(v.drop_first() =~= views_of(rest));
        assert(graphs_of(files)[0] == files[0].graph@);
        lemma_chars_lt_total(files[0].graph@, graph);
        if at > 0 {
            assert forall|j: int| 0 <= j < at - 1 implies chars_lt(#[trigger] graphs_of(rest)[j], graph) by {
                assert(graphs_of(rest)[j] == graphs_of(files)[j + 1]);
            }
            assert forall|j: int| at - 1 < j < rest.len() implies chars_lt(graph, #[trigger] graphs_of(rest)[j]) by {
                assert(graphs_of(rest)[j] == graphs_of(files)[j + 1]);
            }
            assert forall|i: int, j: int| 0 <= i < j < graphs_of(rest).len() implies chars_lt(graphs_of(rest)[i], graphs_of(rest)[j]) by {
                assert(graphs_of(rest)[i] == graphs_of(files)[i + 1]);
                assert(graphs_of(rest)[j] == graphs_of(files)[j + 1]);
            }
            if at < files.len() {
                assert(graphs_of(rest)[at - 1] == graphs_of(files)[at]);
            }
            lemma_file_of_sorted(rest, graph, found, at - 1);
        } else if !found {
            assert forall|j: int| 0 <= j < files.len() implies files[j].graph@ != graph by {
                assert(graphs_of(files)[j] == files[j].graph@);
                if j > 0 {
                    lemma_chars_lt_transitive(graph, graphs_of(files)[0], graphs_of(files)[j]);
                }
                lemma_chars_lt_total(graph, files[j].graph@);
            }
            lemma_file_of_absent(files, graph);
        }
    }
}

proof fn lemma_file_of_absent(files: Seq<GraphIntentFile>, graph: Seq<char>)
    requires
        forall|j: int| 0 <= j < files.len() ==> files[j].graph@ != graph,
    ensures
        file_of(views_of(files), graph) is None,
    decreases files.len(),
{
    if files.len() > 0 {
        let rest = files.drop_first();
        assert(views_of(files).drop_first() =~= views_of(rest));
        lemma_file_of_absent(rest, graph);
    }
}

proof fn lemma_file_of_insert(files: Seq<GraphIntentFile>, at: int, file: GraphIntentFile)
    requires
        0 <= at <= files.len(),
        forall|j: int| 0 <= j < files.len() ==> files[j].graph@ != file.graph@,
    ensures
        forall|g: Seq<char>| #[trigger] file_of(views_of(files.insert(at, file)), g)
            == if g == file.graph@ {
            Some(intent_view(file))
        } else {
            file_of(views_of(files), g)
        },
    decreases files.len(),
{
    let after = files.insert(at, file);
    let va = views_of(after);
    let vb = views_of(files);
    if at == 0 {
        assert(after[0] == file);
        assert(va.drop_first() =~= vb);
        assert forall|g: Seq<char>| #[trigger] file_of(va, g) == if g == file.graph@ {
            Some(intent_view(file))
        } else {
            file_of(vb, g)
        } by {
            if g == file.graph@ {
            } else {
                assert(file_of(va, g) == file_of(va.drop_first(), g));
            }
        }
    } else {
        let rest = files.drop_first();
        assert(after[0] == files[0]);
        assert(after.drop_first() =~= rest.insert(at - 1, file));
        assert(va.drop_first() =~= views_of(rest.insert(at - 1, file)));
        assert(vb.drop_first() =~= views_of(rest));
        lemma_file_of_insert(rest, at - 1, file);
        assert forall|g: Seq<char>| #[trigger] file_of(va, g) == if g == file.graph@ {
            Some(intent_view(file))
        } else {
            file_of(vb, g)
        } by {
            if files[0].graph@ == g {
                assert(file_of(va, g) == Some(va[0]));
                assert(file_of(vb, g) == Some(vb[0]));
            } else {
                assert(file_of(va, g) == file_of(va.drop_first(), g));
                assert(file_of(vb, g) == file_of(vb.drop_first(), g));
            }
        }
    }
}

proof fn lemma_file_of_update(files: Seq<GraphIntentFile>, at: int, file: GraphIntentFile)
    requires
        0 <= at < files.len(),
        files[at].graph@ == file.graph@,
        forall|j: int| 0 <= j < at ==> files[j].graph@ != file.graph@,
    ensures
        forall|g: Seq<char>| #[trigger] file_of(views_of(files.update(at, file)), g)
            == if g == file.graph@ {
            Some(intent_view(file))
        } else {
            file_of(views_of(files), g)
        },
    decreases at,
{
    let after = files.update(at, file);
    let va = views_of(after);
    let vb = views_of(files);
    if at == 0 {
        assert(after[0] == file);
        assert(va.drop_first() =~= vb.drop_first());
        assert forall|g: Seq<char>| #[trigger] file_of(va, g) == if g == file.graph@ {
            Some(intent_view(file))
        } else {
            file_of(vb, g)
        } by {
            if g != file.graph@ {
                assert(file_of(va, g) == file_of(va.drop_first(), g));
                assert(file_of(vb, g) == file_of(vb.drop_first(), g));
            }
        }
    } else {
        let rest = files.drop_first();
        assert(after[0] == files[0]);
        assert(after.drop_first() =~= rest.update(at - 1, file));
        assert(va.drop_first() =~= views_of(rest.update(at - 1, file)));
        assert(vb.drop_first() =~= views_of(rest));
        lemma_file_of_update(rest, at - 1, file);
        assert forall|g: Seq<char>| #[trigger] file_of(va, g) == if g == file.graph@ {
            Some(intent_view(file))
        } else {
            file_of(vb, g)
        } by {
            if files[0].graph@ == g {
                assert(file_of(va, g) == Some(va[0]));
                assert(file_of(vb, g) == Some(vb[0]));
            } else {
                assert(file_of(va, g) == file_of(va.drop_first(), g));
                assert(file_of(vb, g) == file_of(vb.drop_first(), g));
            }
        }
    }
}


// === The calls a poll makes ===

/// What acknowledging `reply` for `graph` gives: the generation to record,
/// or why the reply is refused.
pub open spec fn ack_outcome(graph: Seq<char>, reply: GraphStatusReply) -> Result<u64, Seq<char>> {
    match status_problem(graph, reply) {
        Some(m) => Err(m),
        None => match reply.generation {
            None => Err("GraphService status for "@ + graph + " omitted generation"@),
            Some(g) => if g == 0 {
                Err("GraphService returned generation zero for "@ + graph)
            } else {
                Ok(g)
            },
        },
    }
}

impl IntentSet {
    /// Acknowledges `reply` in the file of `graph`, which the set holds, as
    /// `acknowledge` does: on success the file records the returned
    /// generation; a refused reply leaves the set as it is.
    pub fn acknowledge_graph(&mut self, graph: &str, reply: &GraphStatusReply) -> (r: Result<(), GitSyncError>)
        requires
            file_of(old(self).ordered(), graph@) is Some,
        ensures
            ack_outcome(graph@, *reply) matches Err(m) ==> (r matches Err(GitSyncError::Service(t)) && t@ == m
                && final(self).ordered() == old(self).ordered()),
            ack_outcome(graph@, *reply) matches Ok(g) ==> r is Ok && forall|x: Seq<char>| #[trigger] file_of(final(self).ordered(), x)
                == if x == graph@ {
                Some(IntentView { generation: g, ..file_of(old(self).ordered(), graph@)->Some_0 })
            } else {
                file_of(old(self).ordered(), x)
            },
    {
        proof {
            use_type_invariant(&*self);
        }
        let (found, at) = self.position(graph);
        let ghost before = self.files@;
        proof {
            lemma_file_of_sorted(before, graph@, found, at as int);
            assert forall|j: int| 0 <= j < at implies before[j].graph@ != graph@ by {
                assert(graphs_of(before)[j] == before[j].graph@);
                lemma_chars_lt_total(before[j].graph@, graph@);
            }
        }
        assert(found);
        assert(graphs_of(before)[at as int] == before[at as int].graph@);
        let mut files: Vec<GraphIntentFile> = Vec::new();
        std::mem::swap(&mut files, &mut self.files);
        let mut file = files.remove(at);
        let outcome = acknowledge(&mut file, reply);
        let ghost fv = file;
        files.insert(at, file);
        proof {
            let after = files@;
            assert(after =~= before.update(at as int, fv));
            assert(graphs_of(after) =~= graphs_of(before));
            lemma_file_of_update(before, at as int, fv);
            if outcome is Err {
                assert(after =~= before);
            }
        }
        self.files = files;
        outcome
    }
}

/// A call of the graph service that a poll makes.
#[derive(Clone, Debug, PartialEq, Eq)]
pub enum IntentAction {
    Create { graph: String },
    Update { graph: String, expected_generation: u64 },
    Retire { graph: String, expected_generation: u64 },
}

/// A call as plain values: its kind (create, update, retire), graph and
/// expected generation (zero for a create).
pub open spec fn action_view(a: IntentAction) -> (u8, Seq<char>, u64) {
    match a {
        IntentAction::Create { graph } => (0, graph@, 0),
        IntentAction::Update { graph, expected_generation } => (1, graph@, expected_generation),
        IntentAction::Retire { graph, expected_generation } => (2, graph@, expected_generation),
    }
}

/// The calls for the incoming files, in their order: none for a file
/// unchanged since the last poll, a create for generation zero, an update
/// expecting the file's generation otherwise.
pub open spec fn intent_calls(incoming: Seq<IntentView>, seen: Seq<IntentView>) -> Seq<(u8, Seq<char>, u64)>
    decreases incoming.len(),
{
    if incoming.len() == 0 {
        Seq::empty()
    } else {
        let rest = intent_calls(incoming.drop_last(), seen);
        let f = incoming.last();
        if file_of(seen, f.graph) == Some(f) {
            rest
        } else if f.generation == 0 {
            rest.push((0u8, f.graph, 0u64))
        } else {
            rest.push((1u8, f.graph, f.generation))
        }
    }
}

/// The retirements: a graph seen last time whose file is gone, expecting
/// the generation last seen.
pub open spec fn retire_calls(seen: Seq<IntentView>, incoming: Seq<IntentView>) -> Seq<(u8, Seq<char>, u64)>
    decreases seen.len(),
{
    if seen.len() == 0 {
        Seq::empty()
    } else {
        let rest = retire_calls(seen.drop_last(), incoming);
        let f = seen.last();
        if file_of(incoming, f.graph) is None {
            rest.push((2u8, f.graph, f.generation))
        } else {
            rest
        }
    }
}

fn same_bytes(a: &Vec<u8>, b: &Vec<u8>) -> (same: bool)
    ensures
        same == (a@ == b@),
{
    if a.len() != b.len() {
        return false;
    }
    let mut i: usize = 0;
    while i < a.len()
        invariant
            a@.len() == b@.len(),
            i <= a@.len(),
            forall|j: int| 0 <= j < i ==> a@[j] == b@[j],
        decreases a@.len() - i,
    {
        if a[i] != b[i] {
            return false;
        }
        i = i + 1;
    }
    assert(a@ =~= b@);
    true
}

fn same_component(a: &ComponentIntent, b: &ComponentIntent) -> (same: bool)
    ensures
        same == (component_view(*a) == component_view(*b)),
{
    let names = match (&a.name, &b.name) {
        (Some(x), Some(y)) => text_equal(x.as_str(), y.as_str()),
        (None, None) => true,
        _ => false,
    };
    let digests = match (&a.bundle_digest, &b.bundle_digest) {
        (Some(x), Some(y)) => same_bytes(x, y),
        (None, None) => true,
        _ => false,
    };
    names && digests
}

/// Whether two intent files hold the same values.
pub fn same_file(a: &GraphIntentFile, b: &GraphIntentFile) -> (same: bool)
    ensures
        same == (intent_view(*a) == intent_view(*b)),
{
    if a.schema != b.schema || a.generation != b.generation || !text_equal(a.graph.as_str(), b.graph.as_str()) || !text_equal(
        a.name.as_str(),
        b.name.as_str(),
    ) || a.components.len() != b.components.len() {
        assert(intent_view(*a).components.len() == a.components@.len());
        assert(intent_view(*b).components.len() == b.components@.len());
        return false;
    }
    let ghost ca = intent_view(*a).components;
    let ghost cb = intent_view(*b).components;
    let mut i: usize = 0;
    while i < a.components.len()
        invariant
            a.components@.len() == b.components@.len(),
            ca == intent_view(*a).components,
            cb == intent_view(*b).components,
            i <= a.components@.len(),
            forall|j: int| 0 <= j < i ==> ca[j] == cb[j],
        decreases a.components@.len() - i,
    {
        if !same_component(&a.components[i], &b.components[i]) {
            assert(ca[i as int] != cb[i as int]);
            return false;
        }
        i = i + 1;
    }
    assert(ca =~= cb);
    true
}

/// The calls a poll makes, in order: the creates and updates of the
/// incoming files that changed, then the retirements of graphs whose file
/// is gone.
pub fn plan_calls(seen: &IntentSet, incoming: &IntentSet) -> (calls: Vec<IntentAction>)
    ensures
        calls@.map_values(|a: IntentAction| action_view(a)) == intent_calls(incoming.ordered(), seen.ordered()) + retire_calls(
            seen.ordered(),
            incoming.ordered(),
        ),
{
    let ghost iv = incoming.ordered();
    let ghost sv = seen.ordered();
    let mut calls: Vec<IntentAction> = Vec::new();
    let files = incoming.files();
    let n = files.len();
    let mut i: usize = 0;
    assert(iv.take(0) =~= Seq::<IntentView>::empty());
    while i < n
        invariant
            n == files@.len(),
            views_of(files@) == iv,
            iv == incoming.ordered(),
            sv == seen.ordered(),
            i <= n,
            calls@.map_values(|a: IntentAction| action_view(a)) == intent_calls(iv.take(i as int), sv),
        decreases n - i,
    {
        let f = &files[i];
        let ghost before = calls@;
        assert(iv.take(i + 1).drop_last() =~= iv.take(i as int));
        assert(iv.take(i + 1).last() == intent_view(*f));
        let unchanged = match seen.get(f.graph.as_str()) {
            Some(previous) => same_file(previous, f),
            None => false,
        };
        if !unchanged {
            if f.generation == 0 {
                calls.push(IntentAction::Create { graph: f.graph.clone() });
            } else {
                calls.push(IntentAction::Update { graph: f.graph.clone(), expected_generation: f.generation });
            }
        }
        assert(calls@.map_values(|a: IntentAction| action_view(a)) =~= intent_calls(iv.take(i + 1), sv));
        i = i + 1;
    }
    assert(iv.take(n as int) =~= iv);
    let ghost first = calls@.map_values(|a: IntentAction| action_view(a));
    let old_files = seen.files();
    let m = old_files.len();
    let mut k: usize = 0;
    assert(sv.take(0) =~= Seq::<IntentView>::empty());
    assert(first + retire_calls(sv.take(0), iv) =~= first);
    while k < m
        invariant
            m == old_files@.len(),
            views_of(old_files@) == sv,
            iv == incoming.ordered(),
            sv == seen.ordered(),
            k <= m,
            calls@.map_values(|a: IntentAction| action_view(a)) == first + retire_calls(sv.take(k as int), iv),
        decreases m - k,
    {
        let f = &old_files[k];
        assert(sv.take(k + 1).drop_last() =~= sv.take(k as int));
        assert(sv.take(k + 1).last() == intent_view(*f));
        let ghost prior = calls@.map_values(|a: IntentAction| action_view(a));
        let ghost rc = retire_calls(sv.take(k as int), iv);
        if incoming.get(f.graph.as_str()).is_none() {
            calls.push(IntentAction::Retire { graph: f.graph.clone(), expected_generation: f.generation });
            assert(calls@.map_values(|a: IntentAction| action_view(a)) =~= prior.push((2u8, f.graph@, f.generation)));
            assert(retire_calls(sv.take(k + 1), iv) == rc.push((2u8, f.graph@, f.generation)));
            assert(first + rc.push((2u8, f.graph@, f.generation)) =~= (first + rc).push((2u8, f.graph@, f.generation)));
        } else {
            assert(retire_calls(sv.take(k + 1), iv) == rc);
        }
        assert(calls@.map_values(|a: IntentAction| action_view(a)) =~= first + retire_calls(sv.take(k + 1), iv));
        k = k + 1;
    }
    assert(sv.take(m as int) =~= sv);
    calls
}

/// The path of a graph's intent file in the deploy branch.
pub open spec fn intent_path(graph: Seq<char>) -> Seq<char> {
    "henosis/graphs/"@ + graph + ".toml"@
}

/// The path the intent file of `graph` is published under.
pub fn intent_file_path(graph: &str) -> (path: String)
    ensures
        path@ == intent_path(graph@),
{
    let mut p = String::from_str("henosis/graphs/");
    p.append(graph);
    p.append(".toml");
    p
}

impl GitSyncError {
    /// The error as its `Display` shows it.
    pub fn message(&self) -> (text: String)
        ensures
            match *self {
                GitSyncError::Service(m) => text@ == "public GraphService call failed: "@ + m@,
                GitSyncError::Decode(m) => text@ == "invalid graph intent file: "@ + m@,
                GitSyncError::Encode(m) => text@ == "cannot encode graph intent file: "@ + m@,
                GitSyncError::Git(e) => text@ == git_error_text(e),
            },
    {
        match self {
            GitSyncError::Service(m) => {
                let mut t = String::from_str("public GraphService call failed: ");
                t.append(m.as_str());
                t
            },
            GitSyncError::Decode(m) => {
                let mut t = String::from_str("invalid graph intent file: ");
                t.append(m.as_str());
                t
            },
            GitSyncError::Encode(m) => {
                let mut t = String::from_str("cannot encode graph intent file: ");
                t.append(m.as_str());
                t
            },
            GitSyncError::Git(e) => e.message(),
        }
    }
}

// === One poll of the deploy branch ===

proof fn lemma_file_of_present(files: Seq<IntentView>, k: int)
    requires
        0 <= k < files.len(),
    ensures
        file_of(files, files[k].graph) is Some,
    decreases files.len(),
{
    if files[0].graph != files[k].graph {
        lemma_file_of_present(files.drop_first(), k - 1);
    }
}

proof fn lemma_intent_calls_present(incoming: Seq<IntentView>, seen: Seq<IntentView>, j: int)
    requires
        0 <= j < intent_calls(incoming, seen).len(),
    ensures
        exists|k: int| 0 <= k < incoming.len() && incoming[k].graph == (#[trigger] intent_calls(incoming, seen)[j]).1,
        intent_calls(incoming, seen)[j].0 != 2,
    decreases incoming.len(),
{
    let rest = intent_calls(incoming.drop_last(), seen);
    if j < rest.len() {
        lemma_intent_calls_present(incoming.drop_last(), seen, j);
        let k = choose|k: int| 0 <= k < incoming.drop_last().len() && incoming.drop_last()[k].graph == rest[j].1;
        assert(incoming[k].graph == intent_calls(incoming, seen)[j].1);
    } else {
        assert(incoming[incoming.len() - 1].graph == intent_calls(incoming, seen)[j].1);
    }
}

proof fn lemma_retire_calls_kind(seen: Seq<IntentView>, incoming: Seq<IntentView>, j: int)
    requires
        0 <= j < retire_calls(seen, incoming).len(),
    ensures
        retire_calls(seen, incoming)[j].0 == 2,
    decreases seen.len(),
{
    let rest = retire_calls(seen.drop_last(), incoming);
    if j < rest.len() {
        lemma_retire_calls_kind(seen.drop_last(), incoming, j);
    }
}

/// A poll in progress: the files seen last time, the incoming files (whose
/// generations the acknowledgements update), the calls the poll makes, how
/// many were made, and whether a create or update was acknowledged.
pub struct PollRun {
    seen: IntentSet,
    incoming: IntentSet,
    calls: Vec<IntentAction>,
    done: usize,
    acknowledged: bool,
}

impl PollRun {
    /// Every create or update still to be made is for a graph with an
    /// incoming file.
    pub closed spec fn well_formed(&self) -> bool {
        &&& self.done <= self.calls@.len()
        &&& forall|i: int|
            self.done <= i < self.calls@.len() && action_view(#[trigger] self.calls@[i]).0 != 2 ==> file_of(
                self.incoming.ordered(),
                action_view(self.calls@[i]).1,
            ) is Some
    }

    /// The calls of the poll, as plain values.
    pub closed spec fn planned(&self) -> Seq<(u8, Seq<char>, u64)> {
        self.calls@.map_values(|a: IntentAction| action_view(a))
    }

    /// How many calls were made, each counting as one change.
    pub closed spec fn made(&self) -> nat {
        self.done as nat
    }

    /// Whether a create or update was acknowledged.
    pub closed spec fn acknowledged(&self) -> bool {
        self.acknowledged
    }

    /// The incoming files, with the generations acknowledged so far.
    pub closed spec fn incoming(&self) -> Seq<IntentView> {
        self.incoming.ordered()
    }

    /// The files seen last time.
    pub closed spec fn seen(&self) -> Seq<IntentView> {
        self.seen.ordered()
    }

    /// Starts a poll of `incoming` against what was `seen` last time: the
    /// calls are those `plan_calls` states, none made yet.
    pub fn start(seen: IntentSet, incoming: IntentSet) -> (run: Self)
        ensures
            run.planned() == intent_calls(incoming.ordered(), seen.ordered()) + retire_calls(seen.ordered(), incoming.ordered()),
            run.made() == 0,
            run.well_formed(),
            !run.acknowledged(),
            run.incoming() == incoming.ordered(),
            run.seen() == seen.ordered(),
    {
        let calls = plan_calls(&seen, &incoming);
        let ghost iv = incoming.ordered();
        let ghost sv = seen.ordered();
        let ghost ic = intent_calls(iv, sv);
        proof {
            assert forall|i: int| 0 <= i < calls@.len() && action_view(#[trigger] calls@[i]).0 != 2 implies file_of(
                iv,
                action_view(calls@[i]).1,
            ) is Some by {
                let cv = calls@.map_values(|a: IntentAction| action_view(a));
                let rc = retire_calls(sv, iv);
                assert(cv == ic + rc);
                assert(cv[i] == action_view(calls@[i]));
                if i < ic.len() {
                    assert(cv[i] == ic[i]);
                    lemma_intent_calls_present(iv, sv, i);
                    let k = choose|k: int| 0 <= k < iv.len() && iv[k].graph == ic[i].1;
                    lemma_file_of_present(iv, k);
                } else {
                    assert(cv.len() == ic.len() + rc.len());
                    assert(cv[i] == rc[i - ic.len()]);
                    lemma_retire_calls_kind(sv, iv, i - ic.len());
                }
            }
        }
        PollRun { seen, incoming, calls, done: 0, acknowledged: false }
    }

    /// The next call to make, if any is left.
    pub fn next_call(&self) -> (call: Option<&IntentAction>)
        requires
            self.well_formed(),
        ensures
            call matches Some(c) ==> self.made() < self.planned().len() && action_view(*c) == self.planned()[self.made() as int],
            call is None ==> self.made() == self.planned().len(),
    {
        if self.done < self.calls.len() {
            Some(&self.calls[self.done])
        } else {
            None
        }
    }

    /// Takes the service's reply to the next call. A create's or update's
    /// reply is acknowledged in the graph's incoming file as
    /// `acknowledge_graph` states; a retirement's reply must be about its
    /// graph. A refused reply is the error and changes nothing; otherwise the
    /// call counts as made.
    pub fn take_reply(&mut self, reply: &GraphStatusReply) -> (r: Result<(), GitSyncError>)
        requires
            old(self).well_formed(),
            old(self).made() < old(self).planned().len(),
        ensures
            final(self).well_formed(),
            final(self).planned() == old(self).planned(),
            final(self).seen() == old(self).seen(),
            ({
                let c = old(self).planned()[old(self).made() as int];
                if c.0 == 2 {
                    &&& status_problem(c.1, *reply) matches Some(m) ==> (r matches Err(GitSyncError::Service(t)) && t@ == m
                        && final(self).made() == old(self).made() && final(self).incoming() == old(self).incoming()
                        && final(self).acknowledged() == old(self).acknowledged())
                    &&& status_problem(c.1, *reply) is None ==> (r is Ok && final(self).made() == old(self).made() + 1
                        && final(self).incoming() == old(self).incoming() && final(self).acknowledged() == old(self).acknowledged())
                } else {
                    &&& ack_outcome(c.1, *reply) matches Err(m) ==> (r matches Err(GitSyncError::Service(t)) && t@ == m
                        && final(self).made() == old(self).made() && final(self).incoming() == old(self).incoming()
                        && final(self).acknowledged() == old(self).acknowledged())
                    &&& ack_outcome(c.1, *reply) matches Ok(g) ==> (r is Ok && final(self).made() == old(self).made() + 1
                        && final(self).acknowledged() && forall|x: Seq<char>| #[trigger] file_of(final(self).incoming(), x)
                        == if x == c.1 {
                        Some(IntentView { generation: g, ..file_of(old(self).incoming(), c.1)->Some_0 })
                    } else {
                        file_of(old(self).incoming(), x)
                    })
                }
            }),
    {
        let ghost cv = self.calls@.map_values(|a: IntentAction| action_view(a));
        let total = self.calls.len();
        assert(self.calls@.len() == cv.len());
        assert(self.done < total);
        assert(cv[self.done as int] == action_view(self.calls@[self.done as int]));
        match &self.calls[self.done] {
            IntentAction::Retire { graph, .. } => {
                match validate_status(graph.as_str(), reply) {
                    Err(e) => Err(e),
                    Ok(()) => {
                        self.done = self.done + 1;
                        Ok(())
                    },
                }
            },
            IntentAction::Create { graph } | IntentAction::Update { graph, .. } => {
                let g = graph.clone();
                let mut incoming = IntentSet::new();
                std::mem::swap(&mut incoming, &mut self.incoming);
                let ghost before = incoming.ordered();
                let outcome = incoming.acknowledge_graph(g.as_str(), reply);
                proof {
                    assert forall|x: Seq<char>| file_of(before, x) is Some implies #[trigger] file_of(incoming.ordered(), x) is Some by {
                        match ack_outcome(g@, *reply) {
                            Ok(_) => {},
                            Err(_) => {},
                        }
                    }
                }
                self.incoming = incoming;
                match outcome {
                    Err(e) => Err(e),
                    Ok(()) => {
                        self.done = self.done + 1;
                        self.acknowledged = true;
                        Ok(())
                    },
                }
            },
        }
    }

    /// Ends a poll whose calls were all made: how many changes it made,
    /// whether the acknowledged files are published, and the files seen from
    /// now on, which are the incoming ones with their acknowledged
    /// generations.
    pub fn finish(self) -> (out: (usize, bool, IntentSet))
        requires
            self.made() == self.planned().len(),
        ensures
            out.0 == self.made(),
            out.1 == self.acknowledged(),
            out.2.ordered() == self.incoming(),
    {
        (self.done, self.acknowledged, self.incoming)
    }
}

proof fn lemma_file_of_own(files: Seq<IntentView>, k: int)
    requires
        graphs_ascending(files.map_values(|f: IntentView| f.graph)),
        0 <= k < files.len(),
    ensures
        file_of(files, files[k].graph) == Some(files[k]),
    decreases files.len(),
{
    let g = files.map_values(|f: IntentView| f.graph);
    if k > 0 {
        assert(g[0] == files[0].graph && g[k] == files[k].graph);
        assert(chars_lt(g[0], g[k]));
        lemma_chars_lt_total(files[0].graph, files[0].graph);
        let rest = files.drop_first();
        let rg = rest.map_values(|f: IntentView| f.graph);
        assert forall|i: int, j: int| 0 <= i < j < rg.len() implies chars_lt(#[trigger] rg[i], #[trigger] rg[j]) by {
            assert(g[i + 1] == rest[i].graph && g[j + 1] == rest[j].graph);
        }
        lemma_file_of_own(rest, k - 1);
    }
}

/// A poll of files unchanged since the last poll makes no call at all: no
/// create, update or retirement, so it counts no change and publishes
/// nothing.
pub proof fn law_unchanged_poll_makes_no_call(files: Seq<IntentView>)
    requires
        graphs_ascending(files.map_values(|f: IntentView| f.graph)),
    ensures
        intent_calls(files, files) + retire_calls(files, files) == Seq::<(u8, Seq<char>, u64)>::empty(),
{
    lemma_no_intent_calls(files, files, files.len() as int);
    lemma_no_retire_calls(files, files, files.len() as int);
    assert(files.take(files.len() as int) =~= files);
    assert(intent_calls(files, files) + retire_calls(files, files) =~= Seq::<(u8, Seq<char>, u64)>::empty());
}

proof fn lemma_no_intent_calls(files: Seq<IntentView>, seen: Seq<IntentView>, k: int)
    requires
        seen == files,
        graphs_ascending(files.map_values(|f: IntentView| f.graph)),
        0 <= k <= files.len(),
    ensures
        intent_calls(files.take(k), seen).len() == 0,
    decreases k,
{
    if k > 0 {
        lemma_no_intent_calls(files, seen, k - 1);
        assert(files.take(k).drop_last() =~= files.take(k - 1));
        lemma_file_of_own(files, k - 1);
    }
}

proof fn lemma_no_retire_calls(files: Seq<IntentView>, incoming: Seq<IntentView>, k: int)
    requires
        incoming == files,
        0 <= k <= files.len(),
    ensures
        retire_calls(files.take(k), incoming).len() == 0,
    decreases k,
{
    if k > 0 {
        lemma_no_retire_calls(files, incoming, k - 1);
        assert(files.take(k).drop_last() =~= files.take(k - 1));
        lemma_file_of_present(files, k - 1);
    }
}

} // verus!

verus! {

/// The calls of a poll of `incoming` after `seen`, in order.
pub open spec fn poll_calls(seen: Seq<IntentView>, incoming: Seq<IntentView>) -> Seq<(u8, Seq<char>, u64)> {
    intent_calls(incoming, seen) + retire_calls(seen, incoming)
}

/// The life of one graph over successive polls: a new file at generation
/// zero is created; once acknowledged at generation `n` (the file is kept
/// with that generation), an edit of it at generation `n` is an update
/// expecting `n`; and when its file is gone, the graph is retired expecting
/// the generation last seen. Each poll makes exactly that one call.
pub proof fn law_poll_round_trip(created: IntentView, n: u64, edited: IntentView, m: u64)
    requires
        created.generation == 0,
        n > 0,
        edited.graph == created.graph,
        edited.generation == n,
        edited != (IntentView { generation: n, ..created }),
    ensures
        poll_calls(Seq::empty(), seq![created]) == seq![(0u8, created.graph, 0u64)],
        poll_calls(seq![IntentView { generation: n, ..created }], seq![edited]) == seq![(1u8, created.graph, n)],
        poll_calls(seq![IntentView { generation: m, ..edited }], Seq::empty()) == seq![(2u8, created.graph, m)],
{
    let acked = IntentView { generation: n, ..created };
    let last = IntentView { generation: m, ..edited };
    let one = seq![created];
    assert(one.drop_last() =~= Seq::<IntentView>::empty());
    assert(one.last() == created);
    assert(intent_calls(one.drop_last(), Seq::empty()) == Seq::<(u8, Seq<char>, u64)>::empty());
    assert(file_of(Seq::<IntentView>::empty(), created.graph) is None);
    assert(intent_calls(one, Seq::empty()) =~= seq![(0u8, created.graph, 0u64)]);
    assert(retire_calls(Seq::empty(), one) =~= Seq::<(u8, Seq<char>, u64)>::empty());
    assert(poll_calls(Seq::empty(), one) =~= seq![(0u8, created.graph, 0u64)]);
    let e = seq![edited];
    let a = seq![acked];
    assert(e.drop_last() =~= Seq::<IntentView>::empty());
    assert(a.drop_last() =~= Seq::<IntentView>::empty());
    assert(a[0].graph == edited.graph);
    assert(file_of(a.drop_first(), edited.graph) is None);
    assert(file_of(a, edited.graph) == Some(acked));
    assert(e.last() == edited);
    assert(intent_calls(e.drop_last(), a) == Seq::<(u8, Seq<char>, u64)>::empty());
    assert(intent_calls(e, a) =~= seq![(1u8, created.graph, n)]);
    assert(file_of(e, acked.graph) == Some(edited));
    assert(a.last() == acked);
    assert(retire_calls(a.drop_last(), e) == Seq::<(u8, Seq<char>, u64)>::empty());
    assert(retire_calls(a, e) =~= Seq::<(u8, Seq<char>, u64)>::empty());
    assert(poll_calls(a, e) =~= seq![(1u8, created.graph, n)]);
    let l = seq![last];
    assert(l.drop_last() =~= Seq::<IntentView>::empty());
    assert(l.last() == last);
    assert(retire_calls(l.drop_last(), Seq::empty()) == Seq::<(u8, Seq<char>, u64)>::empty());
    assert(file_of(Seq::<IntentView>::empty(), last.graph) is None);
    assert(retire_calls(l, Seq::empty()) =~= seq![(2u8, created.graph, m)]);
    assert(intent_calls(Seq::empty(), l) =~= Seq::<(u8, Seq<char>, u64)>::empty());
    assert(poll_calls(l, Seq::empty()) =~= seq![(2u8, created.graph, m)]);
}

} // verus!

verus! {

/// The call a changed intent file makes: a create for generation zero, an
/// update expecting the file's generation otherwise.
pub open spec fn call_for(f: IntentView) -> (u8, Seq<char>, u64) {
    if f.generation == 0 {
        (0u8, f.graph, 0u64)
    } else {
        (1u8, f.graph, f.generation)
    }
}

/// A poll calls for exactly the incoming files that changed since the last
/// poll (a create for generation zero, an update expecting the file's
/// generation otherwise), and retires exactly the graphs seen last time
/// whose file is gone, expecting the generation last seen.
pub proof fn law_poll_calls_are_the_changes(incoming: Seq<IntentView>, seen: Seq<IntentView>, c: (u8, Seq<char>, u64))
    ensures
        intent_calls(incoming, seen).contains(c) <==> exists|i: int|
            0 <= i < incoming.len() && file_of(seen, incoming[i].graph) != Some(incoming[i]) && c == call_for(
                #[trigger] incoming[i],
            ),
        retire_calls(seen, incoming).contains(c) <==> exists|i: int|
            0 <= i < seen.len() && file_of(incoming, seen[i].graph) is None && c == (
                2u8,
                (#[trigger] seen[i]).graph,
                seen[i].generation,
            ),
{
    lemma_intent_calls(incoming, seen, c);
    lemma_retire_calls(seen, incoming, c);
}

proof fn lemma_intent_calls(incoming: Seq<IntentView>, seen: Seq<IntentView>, c: (u8, Seq<char>, u64))
    ensures
        intent_calls(incoming, seen).contains(c) <==> exists|i: int|
            0 <= i < incoming.len() && file_of(seen, incoming[i].graph) != Some(incoming[i]) && c == call_for(
                #[trigger] incoming[i],
            ),
    decreases incoming.len(),
{
    if incoming.len() > 0 {
        let front = incoming.drop_last();
        lemma_intent_calls(front, seen, c);
        let f = incoming.last();
        let rest = intent_calls(front, seen);
        lemma_push_contains(rest, call_for(f), c);
        if exists|i: int|
            0 <= i < front.len() && file_of(seen, front[i].graph) != Some(front[i]) && c == call_for(#[trigger] front[i]) {
            let i = choose|i: int|
                0 <= i < front.len() && file_of(seen, front[i].graph) != Some(front[i]) && c == call_for(#[trigger] front[i]);
            assert(incoming[i] == front[i]);
        }
        if exists|i: int|
            0 <= i < incoming.len() && file_of(seen, incoming[i].graph) != Some(incoming[i]) && c == call_for(
                #[trigger] incoming[i],
            ) {
            let i = choose|i: int|
                0 <= i < incoming.len() && file_of(seen, incoming[i].graph) != Some(incoming[i]) && c == call_for(
                    #[trigger] incoming[i],
                );
            if i < front.len() {
                assert(front[i] == incoming[i]);
            }
        }
        assert(incoming[incoming.len() - 1] == f);
    }
}

proof fn lemma_retire_calls(seen: Seq<IntentView>, incoming: Seq<IntentView>, c: (u8, Seq<char>, u64))
    ensures
        retire_calls(seen, incoming).contains(c) <==> exists|i: int|
            0 <= i < seen.len() && file_of(incoming, seen[i].graph) is None && c == (
                2u8,
                (#[trigger] seen[i]).graph,
                seen[i].generation,
            ),
    decreases seen.len(),
{
    if seen.len() > 0 {
        let front = seen.drop_last();
        lemma_retire_calls(front, incoming, c);
        let f = seen.last();
        let rest = retire_calls(front, incoming);
        lemma_push_contains(rest, (2u8, f.graph, f.generation), c);
        if exists|i: int|
            0 <= i < front.len() && file_of(incoming, front[i].graph) is None && c == (
                2u8,
                (#[trigger] front[i]).graph,
                front[i].generation,
            ) {
            let i = choose|i: int|
                0 <= i < front.len() && file_of(incoming, front[i].graph) is None && c == (
                    2u8,
                    (#[trigger] front[i]).graph,
                    front[i].generation,
                );
            assert(seen[i] == front[i]);
        }
        if exists|i: int|
            0 <= i < seen.len() && file_of(incoming, seen[i].graph) is None && c == (
                2u8,
                (#[trigger] seen[i]).graph,
                seen[i].generation,
            ) {
            let i = choose|i: int|
                0 <= i < seen.len() && file_of(incoming, seen[i].graph) is None && c == (
                    2u8,
                    (#[trigger] seen[i]).graph,
                    seen[i].generation,
                );
            if i < front.len() {
                assert(front[i] == seen[i]);
            }
        }
        assert(seen[seen.len() - 1] == f);
    }
}

proof fn lemma_push_contains<A>(s: Seq<A>, x: A, y: A)
    ensures
        s.push(x).contains(y) <==> s.contains(y) || x == y,
{
    if s.push(x).contains(y) {
        let i = choose|i: int| 0 <= i < s.len() + 1 && s.push(x)[i] == y;
        if i < s.len() {
            assert(s[i] == y);
        }
    }
    if s.contains(y) {
        let i = choose|i: int| 0 <= i < s.len() && s[i] == y;
        assert(s.push(x)[i] == y);
    }
    assert(s.push(x)[s.len() as int] == x);
}

} // verus!

verus! {

/// An intent file is accepted exactly when it uses schema one, has a name,
/// and every component names itself and its bundle; a reply is about a
/// graph exactly when it names that graph.
pub proof fn law_intent_file_rules(f: IntentView, graph: Seq<char>, reply: GraphStatusReply)
    ensures
        intent_problem(f) is None <==> (f.schema == 1 && f.name.len() > 0 && forall|i: int|
            0 <= i < f.components.len() ==> component_complete(#[trigger] f.components[i])),
        status_problem(graph, reply) is None <==> (reply.graph_id matches Some(g) && g@ == graph),
{
}

} // verus!
