//! The Kubernetes publication controller's decisions: which resource bodies
//! it accepts, the files it publishes for a graph (one YAML file per
//! resource under its component instance, plus a publication marker), and
//! when an unchanged graph reuses its last publication.

use vstd::prelude::*;

use crate::digest::{be_u128, be_value, blake3_digest, blake3_hash};
use crate::evaluation::{entries_view, field_of, find_key, json_view, JsonValue, JsonView};
use crate::fmt::{debug_quoted, debug_quoted_text, decimal, decimal_text};
use crate::stores::GitError;
use crate::text::{chars_lt, compare_text, lemma_chars_lt_total, lemma_chars_lt_transitive, text_equal, Precedence};

verus! {

/// The only kind this controller publishes.
pub open spec fn k8s_kind() -> Seq<char> {
    "k8s/object"@
}

/// Why a resource cannot be published, if it cannot: it must be of kind
/// `k8s/object` version one, and its body an object with string fields
/// `apiVersion` and `kind`.
pub open spec fn object_fault(path: Seq<char>, kind: Seq<char>, version: u32, body: JsonView) -> Option<Seq<char>> {
    if kind != k8s_kind() || version != 1 {
        Some(
            "error[k8s.kind.unsupported]: "@ + path + " owns "@ + kind + "@"@ + decimal(version as nat)
                + ", expected k8s/object@1\n  = help: emit native Kubernetes objects through @henosis/platform-k8s"@,
        )
    } else {
        match body {
            JsonView::Object(entries) => if !(field_of(entries, "apiVersion"@) matches Some(JsonView::Str(_))) {
                Some("error[k8s.object.invalid]: "@ + path + " is missing string field "@ + debug_quoted_text("apiVersion"@))
            } else if !(field_of(entries, "kind"@) matches Some(JsonView::Str(_))) {
                Some("error[k8s.object.invalid]: "@ + path + " is missing string field "@ + debug_quoted_text("kind"@))
            } else {
                None
            },
            _ => Some("error[k8s.object.invalid]: "@ + path + " body is not an object"@),
        }
    }
}

fn string_field(entries: &Vec<(String, JsonValue)>, name: &str) -> (found: bool)
    ensures
        found == (field_of(entries_view(entries@), name@) matches Some(JsonView::Str(_))),
{
    match find_key(entries, name) {
        None => {
            proof {
                crate::evaluation::lemma_field_of_absent(entries@, name@);
            }
            false
        },
        Some(at) => {
            proof {
                crate::evaluation::lemma_field_of_found(entries@, name@, at as int);
            }
            matches!(entries[at].1, JsonValue::String(_))
        },
    }
}

/// Checks that a resource can be published, as `object_fault` states.
pub fn validate_object(path: &str, kind: &str, version: u32, body: &JsonValue) -> (r: Result<(), String>)
    ensures
        match object_fault(path@, kind@, version, json_view(*body)) {
            Some(m) => r matches Err(e) && e@ == m,
            None => r is Ok,
        },
{
    if !text_equal(kind, "k8s/object") || version != 1 {
        let mut m = String::from_str("error[k8s.kind.unsupported]: ");
        m.append(path);
        m.append(" owns ");
        m.append(kind);
        m.append("@");
        let v = decimal_text(version as u64);
        m.append(v.as_str());
        m.append(", expected k8s/object@1\n  = help: emit native Kubernetes objects through @henosis/platform-k8s");
        return Err(m);
    }
    match body {
        JsonValue::Object(entries) => {
            if !string_field(entries, "apiVersion") {
                let mut m = String::from_str("error[k8s.object.invalid]: ");
                m.append(path);
                m.append(" is missing string field ");
                let q = debug_quoted("apiVersion");
                m.append(q.as_str());
                return Err(m);
            }
            if !string_field(entries, "kind") {
                let mut m = String::from_str("error[k8s.object.invalid]: ");
                m.append(path);
                m.append(" is missing string field ");
                let q = debug_quoted("kind");
                m.append(q.as_str());
                return Err(m);
            }
            Ok(())
        },
        _ => {
            let mut m = String::from_str("error[k8s.object.invalid]: ");
            m.append(path);
            m.append(" body is not an object");
            Err(m)
        },
    }
}

/// The publication marker of a graph: its id, generation and plan digest,
/// as one line of JSON.
pub open spec fn marker_text(graph: Seq<char>, generation: u64, plan_digest: Seq<char>) -> Seq<char> {
    "{\"graph\":\""@ + graph + "\",\"generation\":"@ + decimal(generation as nat) + ",\"planDigest\":\""@
        + plan_digest + "\"}\n"@
}

/// The marker file's path.
pub open spec fn marker_path() -> Seq<char> {
    ".henosis-publication.json"@
}

/// Where a resource's YAML file goes: under its component instance, named by
/// the resource's name and id.
pub open spec fn resource_file_path(instance: Seq<char>, name: Seq<char>, id: Seq<char>) -> Seq<char> {
    "components/"@ + instance + "/"@ + name + "--"@ + id + ".yaml"@
}

/// The bytes of a resource's file: a YAML document marker and the YAML of
/// its body.
pub open spec fn yaml_file(yaml: Seq<char>) -> Seq<u8> {
    vstd::utf8::encode_utf8("---\n"@ + yaml)
}

/// A graph's published files, by path in ascending order, each path once.
#[derive(Debug)]
pub struct PublishedFiles {
    entries: Vec<(String, Vec<u8>)>,
}

/// The files as plain values.
pub open spec fn files_view(entries: Seq<(String, Vec<u8>)>) -> Seq<(Seq<char>, Seq<u8>)> {
    entries.map_values(|e: (String, Vec<u8>)| (e.0@, e.1@))
}

/// The paths strictly ascend.
pub open spec fn paths_ascending(files: Seq<(Seq<char>, Seq<u8>)>) -> bool {
    forall|i: int, j: int| 0 <= i < j < files.len() ==> chars_lt(#[trigger] files[i].0, #[trigger] files[j].0)
}

impl PublishedFiles {
    #[verifier::type_invariant]
    closed spec fn well_formed(&self) -> bool {
        paths_ascending(files_view(self.entries@))
    }

    /// The files, by ascending path.
    pub closed spec fn files(&self) -> Seq<(Seq<char>, Seq<u8>)> {
        files_view(self.entries@)
    }

    /// No files.
    pub fn new() -> (f: Self)
        ensures
            f.files().len() == 0,
            paths_ascending(f.files()),
    {
        let f = PublishedFiles { entries: Vec::new() };
        assert(files_view(f.entries@) =~= Seq::empty());
        f
    }

    /// The files, by path in ascending order.
    pub fn entries(&self) -> (entries: &Vec<(String, Vec<u8>)>)
        ensures
            files_view(entries@) == self.files(),
    {
        &self.entries
    }

    /// The file at `path`, if any.
    pub fn get(&self, path: &str) -> (bytes: Option<&Vec<u8>>)
        ensures
            match bytes {
                Some(b) => exists|i: int| 0 <= i < self.files().len() && self.files()[i] == (path@, b@),
                None => forall|i: int| 0 <= i < self.files().len() ==> self.files()[i].0 != path@,
            },
    {
        let mut i: usize = 0;
        while i < self.entries.len()
            invariant
                i <= self.entries@.len(),
                forall|k: int| 0 <= k < i ==> files_view(self.entries@)[k].0 != path@,
            decreases self.entries@.len() - i,
        {
            if text_equal(self.entries[i].0.as_str(), path) {
                assert(self.files()[i as int] == (path@, self.entries@[i as int].1@));
                return Some(&self.entries[i].1);
            }
            i = i + 1;
        }
        None
    }

    /// Puts `bytes` at `path`, replacing what was there.
    pub fn insert(&mut self, path: String, bytes: Vec<u8>)
        ensures
            forall|i: int| 0 <= i < final(self).files().len() ==> #[trigger] final(self).files()[i].0 != path@
                ==> old(self).files().contains(final(self).files()[i]),
            forall|i: int| 0 <= i < old(self).files().len() ==> #[trigger] old(self).files()[i].0 != path@
                ==> final(self).files().contains(old(self).files()[i]),
            final(self).files().contains((path@, bytes@)),
            forall|i: int| 0 <= i < final(self).files().len() ==> #[trigger] final(self).files()[i].0 == path@
                ==> final(self).files()[i].1 == bytes@,
            paths_ascending(final(self).files()),
    {
        proof {
            use_type_invariant(&*self);
        }
        let ghost old_files = self.files();
        let n = self.entries.len();
        let mut pos: usize = 0;
        while pos < n && compare_text(self.entries[pos].0.as_str(), path.as_str()) == Precedence::Before
            invariant
                n == self.entries@.len(),
                pos <= n,
                old_files == files_view(self.entries@),
                forall|k: int| 0 <= k < pos ==> chars_lt(#[trigger] old_files[k].0, path@),
            decreases n - pos,
        {
            pos = pos + 1;
        }
        let ghost pview = path@;
        let ghost bview = bytes@;
        let mut entries: Vec<(String, Vec<u8>)> = Vec::new();
        std::mem::swap(&mut entries, &mut self.entries);
        if pos < n && compare_text(entries[pos].0.as_str(), path.as_str()) == Precedence::Same {
            entries.set(pos, (path, bytes));
            proof {
                let f = files_view(entries@);
                assert(f =~= old_files.update(pos as int, (pview, bview)));
                assert forall|i: int, j: int| 0 <= i < j < f.len() implies chars_lt(#[trigger] f[i].0, #[trigger] f[j].0) by {
                    assert(f[i].0 == old_files[i].0);
                    assert(f[j].0 == old_files[j].0);
                }
                assert(f[pos as int] == (pview, bview));
                assert forall|i: int| 0 <= i < old_files.len() && #[trigger] old_files[i].0 != pview implies f.contains(old_files[i]) by {
                    assert(i != pos);
                    assert(f[i] == old_files[i]);
                }
                assert forall|i: int| 0 <= i < f.len() && #[trigger] f[i].0 != pview implies old_files.contains(f[i]) by {
                    assert(f[i] == old_files[i]);
                }
                assert forall|i: int| 0 <= i < f.len() && #[trigger] f[i].0 == pview implies f[i].1 == bview by {
                    if i != pos {
                        lemma_chars_lt_total(old_files[i].0, old_files[pos as int].0);
                    }
                }
            }
        } else {
            proof {
                if pos < n {
                    lemma_chars_lt_total(old_files[pos as int].0, pview);
                }
            }
            entries.insert(pos, (path, bytes));
            proof {
                let f = files_view(entries@);
                assert(f =~= old_files.insert(pos as int, (pview, bview)));
                assert forall|i: int, j: int| 0 <= i < j < f.len() implies chars_lt(#[trigger] f[i].0, #[trigger] f[j].0) by {
                    if j < pos {
                    } else if j == pos {
                    } else if i < pos {
                        lemma_chars_lt_transitive(old_files[i].0, pview, old_files[pos as int].0);
                        if j - 1 > pos {
                            lemma_chars_lt_transitive(old_files[i].0, old_files[pos as int].0, old_files[j - 1].0);
                        }
                    } else if i == pos {
                        if j - 1 > pos {
                            lemma_chars_lt_transitive(pview, old_files[pos as int].0, old_files[j - 1].0);
                        }
                    }
                }
                assert(f[pos as int] == (pview, bview));
                assert forall|i: int| 0 <= i < old_files.len() && #[trigger] old_files[i].0 != pview implies f.contains(old_files[i]) by {
                    if i < pos {
                        assert(f[i] == old_files[i]);
                    } else {
                        assert(f[i + 1] == old_files[i]);
                    }
                }
                assert forall|i: int| 0 <= i < f.len() && #[trigger] f[i].0 != pview implies old_files.contains(f[i]) by {
                    if i < pos {
                        assert(f[i] == old_files[i]);
                    } else {
                        assert(f[i] == old_files[i - 1]);
                    }
                }
                assert forall|i: int| 0 <= i < f.len() && #[trigger] f[i].0 == pview implies f[i].1 == bview by {
                    if i < pos {
                        lemma_chars_lt_total(old_files[i].0, pview);
                    } else if i > pos {
                        if pos < n {
                            lemma_chars_lt_total(old_files[pos as int].0, pview);
                            if i - 1 > pos {
                                lemma_chars_lt_transitive(pview, old_files[pos as int].0, old_files[i - 1].0);
                            }
                            lemma_chars_lt_total(pview, old_files[i - 1].0);
                        }
                    }
                }
            }
        }
        self.entries = entries;
    }

    /// Removes the file at `path`, if any.
    pub fn remove(&mut self, path: &str)
        ensures
            forall|i: int| 0 <= i < final(self).files().len() ==> #[trigger] final(self).files()[i].0 != path@,
            forall|i: int| 0 <= i < old(self).files().len() ==> #[trigger] old(self).files()[i].0 != path@
                ==> final(self).files().contains(old(self).files()[i]),
            forall|i: int| 0 <= i < final(self).files().len() ==> old(self).files().contains(#[trigger] final(self).files()[i]),
            paths_ascending(final(self).files()),
    {
        proof {
            use_type_invariant(&*self);
        }
        let ghost old_files = self.files();
        let n = self.entries.len();
        let mut i: usize = 0;
        while i < n
            invariant
                n == self.entries@.len(),
                i <= n,
                old_files == files_view(self.entries@),
                old_files == old(self).files(),
                paths_ascending(old_files),
                forall|k: int| 0 <= k < i ==> old_files[k].0 != path@,
            decreases n - i,
        {
            if text_equal(self.entries[i].0.as_str(), path) {
                let mut entries: Vec<(String, Vec<u8>)> = Vec::new();
                std::mem::swap(&mut entries, &mut self.entries);
                entries.remove(i);
                proof {
                    let f = files_view(entries@);
                    assert(f =~= old_files.remove(i as int));
                    assert forall|a: int, b: int| 0 <= a < b < f.len() implies chars_lt(#[trigger] f[a].0, #[trigger] f[b].0) by {
                        if b < i {
                        } else if a < i {
                            lemma_chars_lt_transitive(old_files[a].0, old_files[i as int].0, old_files[b + 1].0);
                        }
                    }
                    assert forall|k: int| 0 <= k < f.len() implies #[trigger] f[k].0 != path@ by {
                        if k < i {
                        } else {
                            lemma_chars_lt_total(old_files[i as int].0, old_files[k + 1].0);
                        }
                    }
                    assert forall|k: int| 0 <= k < old_files.len() && #[trigger] old_files[k].0 != path@ implies f.contains(old_files[k]) by {
                        if k < i {
                            assert(f[k] == old_files[k]);
                        } else {
                            assert(k != i);
                            assert(f[k - 1] == old_files[k]);
                        }
                    }
                    assert forall|k: int| 0 <= k < f.len() implies old_files.contains(#[trigger] f[k]) by {
                        if k < i {
                            assert(f[k] == old_files[k]);
                        } else {
                            assert(f[k] == old_files[k + 1]);
                        }
                    }
                }
                self.entries = entries;
                return;
            }
            i = i + 1;
        }
        proof {
            assert forall|k: int| 0 <= k < old_files.len() implies old_files.contains(#[trigger] old_files[k]) by {
                assert(old_files[k] == old_files[k]);
            }
        }
    }

    /// Whether both hold the same files.
    pub fn same(&self, other: &PublishedFiles) -> (same: bool)
        ensures
            same == (self.files() == other.files()),
    {
        if self.entries.len() != other.entries.len() {
            assert(self.files().len() != other.files().len());
            return false;
        }
        let mut i: usize = 0;
        while i < self.entries.len()
            invariant
                self.entries@.len() == other.entries@.len(),
                i <= self.entries@.len(),
                forall|k: int| 0 <= k < i ==> files_view(self.entries@)[k] == files_view(other.entries@)[k],
            decreases self.entries@.len() - i,
        {
            let a = &self.entries[i];
            let b = &other.entries[i];
            if !text_equal(a.0.as_str(), b.0.as_str()) || !same_bytes(&a.1, &b.1) {
                assert(files_view(self.entries@)[i as int] != files_view(other.entries@)[i as int]);
                return false;
            }
            i = i + 1;
        }
        assert(files_view(self.entries@) =~= files_view(other.entries@));
        true
    }
}

/// The precondition of a publication that replaces a directory only if it
/// is as it was read: the files found there now must be exactly those
/// expected, else the publication fails before anything is written.
pub fn check_directory_unchanged(found: &PublishedFiles, expected: &PublishedFiles) -> (r: Result<(), GitError>)
    ensures
        found.files() == expected.files() ==> r is Ok,
        found.files() != expected.files() ==> r == Err::<(), GitError>(GitError::PreconditionFailed),
{
    if found.same(expected) {
        Ok(())
    } else {
        Err(GitError::PreconditionFailed)
    }
}

fn same_bytes(a: &Vec<u8>, b: &Vec<u8>) -> (same: bool)
    ensures
        same == (a@ == b@),
{
    if a.len() != b.len() {
        return false;
    }
    let mut j: usize = 0;
    while j < a.len()
        invariant
            a@.len() == b@.len(),
            j <= a@.len(),
            forall|q: int| 0 <= q < j ==> a@[q] == b@[q],
        decreases a@.len() - j,
    {
        if a[j] != b[j] {
            return false;
        }
        j = j + 1;
    }
    assert(a@ =~= b@);
    true
}

/// The publication marker of a graph, as `marker_text` writes it.
pub fn publication_marker(graph: &str, generation: u64, plan_digest: &str) -> (bytes: Vec<u8>)
    ensures
        bytes@ == vstd::utf8::encode_utf8(marker_text(graph@, generation, plan_digest@)),
{
    let mut t = String::from_str("{\"graph\":\"");
    t.append(graph);
    t.append("\",\"generation\":");
    let g = decimal_text(generation);
    t.append(g.as_str());
    t.append(",\"planDigest\":\"");
    t.append(plan_digest);
    t.append("\"}\n");
    t.as_str().as_bytes_vec()
}

/// Where a resource's YAML file goes, as `resource_file_path` states.
pub fn resource_path(instance: &str, name: &str, id: &str) -> (path: String)
    ensures
        path@ == resource_file_path(instance@, name@, id@),
{
    let mut p = String::from_str("components/");
    p.append(instance);
    p.append("/");
    p.append(name);
    p.append("--");
    p.append(id);
    p.append(".yaml");
    p
}

/// The first sixteen bytes of the BLAKE3 hash of `evidence`, big-endian.
pub open spec fn publication_id_of(evidence: Seq<u8>) -> u128 {
    be_value(blake3_digest(evidence).take(16)) as u128
}

/// The id of a publication whose evidence is `evidence`.
pub fn publication_id(evidence: &[u8]) -> (id: u128)
    ensures
        id == publication_id_of(evidence@),
{
    let hash = blake3_hash(evidence);
    let id = be_u128(&hash, 0);
    assert(hash@.subrange(0, 16) =~= blake3_digest(evidence@).take(16));
    id
}

/// A resource as this controller publishes it: its id (and how the id is
/// written), its display path, component instance and name, its kind, its
/// body, and the YAML of its body or why it has none.
#[derive(Debug)]
pub struct K8sResource {
    pub id: u128,
    pub id_text: String,
    pub path: String,
    pub instance: String,
    pub name: String,
    pub kind: String,
    pub version: u32,
    pub body: JsonValue,
    pub yaml: Result<String, String>,
}

/// What the controller published for a graph: its files, the file of each
/// resource, and the revision the publication made.
#[derive(Debug)]
pub struct PublishedGraph {
    pub files: PublishedFiles,
    pub resources: Vec<(u128, String)>,
    pub revision: Option<String>,
}

/// Why a graph's resources cannot be rendered, if they cannot: the first
/// resource, in order, that `object_fault` refuses or that has no YAML.
pub open spec fn render_fault(resources: Seq<K8sResource>) -> Option<Seq<char>>
    decreases resources.len(),
{
    if resources.len() == 0 {
        None
    } else {
        let r = resources[0];
        match object_fault(r.path@, r.kind@, r.version, json_view(r.body)) {
            Some(m) => Some(m),
            None => match r.yaml {
                Err(e) => Some("cannot serialize "@ + r.path@ + " as YAML: "@ + e@),
                Ok(_) => render_fault(resources.drop_first()),
            },
        }
    }
}

/// The file every rendered resource contributes: at its path, its YAML
/// document.
pub open spec fn resource_file(r: K8sResource) -> (Seq<char>, Seq<u8>) {
    (resource_file_path(r.instance@, r.name@, r.id_text@), yaml_file(r.yaml->Ok_0@))
}

/// The position of the first entry for resource `id`.
pub open spec fn entry_of(entries: Seq<(u128, String)>, id: u128) -> Option<int>
    decreases entries.len(),
{
    if entries.len() == 0 {
        None
    } else if entries[0].0 == id {
        Some(0)
    } else {
        match entry_of(entries.drop_first(), id) {
            Some(i) => Some(i + 1),
            None => None,
        }
    }
}

proof fn lemma_entry_of(entries: Seq<(u128, String)>, id: u128)
    ensures
        match entry_of(entries, id) {
            Some(i) => 0 <= i < entries.len() && entries[i].0 == id && forall|j: int| 0 <= j < i ==> entries[j].0 != id,
            None => forall|j: int| 0 <= j < entries.len() ==> entries[j].0 != id,
        },
    decreases entries.len(),
{
    if entries.len() > 0 {
        lemma_entry_of(entries.drop_first(), id);
        if entries[0].0 != id {
            assert forall|j: int| 1 <= j < entries.len() implies entries[j] == entries.drop_first()[j - 1] by {}
        }
    }
}

fn find_entry(entries: &Vec<(u128, String)>, id: u128) -> (at: Option<usize>)
    ensures
        match at {
            Some(i) => entry_of(entries@, id) == Some(i as int),
            None => entry_of(entries@, id) is None,
        },
{
    proof {
        lemma_entry_of(entries@, id);
    }
    let mut i: usize = 0;
    while i < entries.len()
        invariant
            i <= entries@.len(),
            forall|k: int| 0 <= k < i ==> entries@[k].0 != id,
            match entry_of(entries@, id) {
                Some(x) => 0 <= x < entries@.len() && entries@[x].0 == id && forall|j: int| 0 <= j < x ==> entries@[j].0 != id,
                None => forall|j: int| 0 <= j < entries@.len() ==> entries@[j].0 != id,
            },
        decreases entries@.len() - i,
    {
        if entries[i].0 == id {
            return Some(i);
        }
        i = i + 1;
    }
    None
}

/// Files `id` at `path`: its entry replaced, or a new entry at the end.
pub open spec fn with_entry(entries: Seq<(u128, String)>, id: u128, path: String) -> Seq<(u128, String)> {
    match entry_of(entries, id) {
        Some(i) => entries.update(i, (id, path)),
        None => entries.push((id, path)),
    }
}

fn put_entry(entries: &mut Vec<(u128, String)>, id: u128, path: String)
    ensures
        final(entries)@ == with_entry(old(entries)@, id, path),
{
    match find_entry(entries, id) {
        Some(i) => {
            proof {
                lemma_entry_of(entries@, id);
            }
            entries.set(i, (id, path));
        },
        None => entries.push((id, path)),
    }
}

/// Some file is at `path`.
pub open spec fn has_path(files: Seq<(Seq<char>, Seq<u8>)>, path: Seq<char>) -> bool {
    exists|i: int| 0 <= i < files.len() && #[trigger] files[i].0 == path
}

/// `entry` records the file of one of `resources`: its id and its path.
pub open spec fn entry_from(entry: (u128, String), resources: Seq<K8sResource>) -> bool {
    exists|k: int| 0 <= k < resources.len() && #[trigger] resources[k].id == entry.0 && entry.1@ == resource_file(resources[k]).0
}

proof fn lemma_marker_path_is_no_resource_path(r: K8sResource)
    ensures
        resource_file(r).0 != marker_path(),
{
    reveal_strlit("components/");
    reveal_strlit(".henosis-publication.json");
    assert(resource_file(r).0[0] == 'c');
    assert(marker_path()[0] == '.');
}

/// What rendering a slice makes: the marker, then each resource's file in
/// order; and each resource's file path, by id.
pub open spec fn rendered(
    marker: (Seq<char>, Seq<u8>),
    resources: Seq<K8sResource>,
) -> Seq<(Seq<char>, Seq<u8>)> {
    seq![marker] + resources.map_values(|r: K8sResource| resource_file(r))
}

/// Renders the files of a graph at `generation` with plan digest
/// `plan_digest`: the publication marker and one YAML file per resource.
/// A resource `render_fault` refuses is the error. The files put hold
/// exactly what `rendered` lists, each path at the last bytes put there.
pub fn render(graph: &str, generation: u64, plan_digest: &str, resources: Vec<K8sResource>) -> (r: Result<PublishedGraph, String>)
    ensures
        match render_fault(resources@) {
            Some(m) => r matches Err(e) && e@ == m,
            None => r matches Ok(g) && g.revision is None && paths_ascending(g.files.files()) && (forall|i: int|
                0 <= i < g.files.files().len() ==> rendered(
                    (marker_path(), vstd::utf8::encode_utf8(marker_text(graph@, generation, plan_digest@))),
                    resources@,
                ).contains(#[trigger] g.files.files()[i])) && g.files.files().contains(
                (marker_path(), vstd::utf8::encode_utf8(marker_text(graph@, generation, plan_digest@))),
            ) && (forall|k: int| 0 <= k < resources@.len() ==> has_path(g.files.files(), #[trigger] resource_file(resources@[k]).0))
                && (forall|k: int| 0 <= k < resources@.len() ==> #[trigger] entry_of(g.resources@, resources@[k].id) is Some) && (
            forall|j: int|
                0 <= j < g.resources@.len() ==> entry_from(#[trigger] g.resources@[j], resources@)),
        },
{
    let ghost all = resources@;
    let ghost marker = (marker_path(), vstd::utf8::encode_utf8(marker_text(graph@, generation, plan_digest@)));
    let mut files = PublishedFiles::new();
    let marker_bytes = publication_marker(graph, generation, plan_digest);
    let marker_name = ".henosis-publication.json".to_string();
    assert(marker_name@ == marker_path());
    let ghost empty = files.files();
    files.insert(marker_name, marker_bytes);
    proof {
        assert(rendered(marker, all)[0] == marker);
        assert forall|i: int| 0 <= i < files.files().len() implies rendered(marker, all).contains(#[trigger] files.files()[i]) by {
            if files.files()[i].0 != marker.0 {
                assert(empty.contains(files.files()[i]));
            }
            assert(files.files()[i] == marker);
        }
    }
    let mut entries: Vec<(u128, String)> = Vec::new();
    let mut rest = resources;
    let mut done: usize = 0;
    assert(all.skip(0) =~= all);
    assert(all.len() == rest.len());
    while rest.len() > 0
        invariant
            all == resources@,
            all.len() <= usize::MAX,
            done + rest@.len() == all.len(),
            rest@ == all.skip(done as int),
            render_fault(all) == render_fault(rest@),
            paths_ascending(files.files()),
            forall|i: int| 0 <= i < files.files().len() ==> rendered(marker, all).contains(#[trigger] files.files()[i]),
            marker == (marker_path(), vstd::utf8::encode_utf8(marker_text(graph@, generation, plan_digest@))),
            files.files().contains(marker),
            forall|k: int| 0 <= k < done ==> has_path(files.files(), #[trigger] resource_file(all[k]).0),
            forall|k: int| 0 <= k < done ==> #[trigger] entry_of(entries@, all[k].id) is Some,
            forall|j: int| 0 <= j < entries@.len() ==> entry_from(#[trigger] entries@[j], all),
        decreases rest@.len(),
    {
        let resource = rest.remove(0);
        proof {
            assert(all.skip(done as int)[0] == resource);
            assert(all.skip(done as int).drop_first() =~= all.skip(done + 1));
        }
        match validate_object(resource.path.as_str(), resource.kind.as_str(), resource.version, &resource.body) {
            Err(e) => {
                return Err(e);
            },
            Ok(()) => {},
        }
        let yaml = match &resource.yaml {
            Err(e) => {
                let mut m = String::from_str("cannot serialize ");
                m.append(resource.path.as_str());
                m.append(" as YAML: ");
                m.append(e.as_str());
                return Err(m);
            },
            Ok(y) => y,
        };
        let path = resource_path(resource.instance.as_str(), resource.name.as_str(), resource.id_text.as_str());
        let mut text = String::from_str("---\n");
        text.append(yaml.as_str());
        let bytes = text.as_str().as_bytes_vec();
        let ghost entry = (path@, bytes@);
        proof {
            assert(entry == resource_file(resource));
            assert(rendered(marker, all)[done + 1] == resource_file(all[done as int]));
        }
        let ghost before = files.files();
        files.insert(path.clone(), bytes);
        proof {
            assert forall|i: int| 0 <= i < files.files().len() implies rendered(marker, all).contains(#[trigger] files.files()[i]) by {
                if files.files()[i].0 == entry.0 {
                    assert(files.files()[i] == entry);
                } else {
                    let k = choose|k: int| 0 <= k < before.len() && before[k] == files.files()[i];
                    assert(rendered(marker, all).contains(before[k]));
                }
            }
        }
        proof {
            lemma_marker_path_is_no_resource_path(resource);
            assert(entry.0 == resource_file(resource).0);
            assert(marker.0 == marker_path());
            assert(files.files().contains(marker)) by {
                let w = choose|w: int| 0 <= w < before.len() && before[w] == marker;
                assert(before[w].0 != entry.0);
            }
            assert forall|k: int| 0 <= k < done + 1 implies has_path(files.files(), #[trigger] resource_file(all[k]).0) by {
                if resource_file(all[k]).0 == entry.0 {
                    let w = choose|w: int| 0 <= w < files.files().len() && files.files()[w] == entry;
                    assert(files.files()[w].0 == entry.0);
                } else {
                    let w = choose|w: int| 0 <= w < before.len() && #[trigger] before[w].0 == resource_file(all[k]).0;
                    let v = choose|v: int| 0 <= v < files.files().len() && files.files()[v] == before[w];
                    assert(files.files()[v].0 == resource_file(all[k]).0);
                }
            }
        }
        let ghost old_entries = entries@;
        let ghost path_view = path@;
        put_entry(&mut entries, resource.id, path);
        proof {
            lemma_entry_of(old_entries, resource.id);
            lemma_entry_of(entries@, resource.id);
            assert(all[done as int] == resource);
            let at = match entry_of(old_entries, resource.id) {
                Some(i) => i,
                None => old_entries.len() as int,
            };
            assert(0 <= at < entries@.len() && entries@[at].0 == resource.id);
            assert forall|x: int| 0 <= x < old_entries.len() && x != at implies entries@[x] == old_entries[x] by {}
            assert forall|k: int| 0 <= k < done + 1 implies #[trigger] entry_of(entries@, all[k].id) is Some by {
                lemma_entry_of(entries@, all[k].id);
                if all[k].id != resource.id {
                    lemma_entry_of(old_entries, all[k].id);
                    let x = entry_of(old_entries, all[k].id)->0;
                    assert(x != at);
                    assert(entries@[x].0 == all[k].id);
                } else {
                    assert(entries@[at].0 == all[k].id);
                }
            }
            assert forall|j: int| 0 <= j < entries@.len() implies entry_from(#[trigger] entries@[j], all) by {
                if j < old_entries.len() && entries@[j] == old_entries[j] {
                    assert(entry_from(old_entries[j], all));
                } else {
                    assert(entries@[j] == (resource.id, entries@[j].1));
                    assert(entries@[j].1@ == path_view);
                    assert(all[done as int].id == entries@[j].0);
                }
            }
        }
        done = done + 1;
    }
    proof {
        assert(all.skip(done as int).len() == 0);
    }
    Ok(PublishedGraph { files, resources: entries, revision: None })
}

/// A published graph as plain values: its files and its revision.
pub open spec fn graph_view(g: PublishedGraph) -> (Seq<(Seq<char>, Seq<u8>)>, Option<Seq<char>>) {
    (
        g.files.files(),
        match g.revision {
            Some(r) => Some(r@),
            None => None,
        },
    )
}

/// What the controller published of each graph, by graph id.
#[derive(Debug)]
pub struct K8sState {
    graphs: Vec<(u128, PublishedGraph)>,
}

/// The position of graph `id` among `graphs`.
pub open spec fn graph_index(graphs: Seq<(u128, PublishedGraph)>, id: u128) -> Option<int>
    decreases graphs.len(),
{
    if graphs.len() == 0 {
        None
    } else if graphs[0].0 == id {
        Some(0)
    } else {
        match graph_index(graphs.drop_first(), id) {
            Some(i) => Some(i + 1),
            None => None,
        }
    }
}

proof fn lemma_graph_index(graphs: Seq<(u128, PublishedGraph)>, id: u128)
    ensures
        match graph_index(graphs, id) {
            Some(i) => 0 <= i < graphs.len() && graphs[i].0 == id && forall|j: int| 0 <= j < i ==> graphs[j].0 != id,
            None => forall|j: int| 0 <= j < graphs.len() ==> graphs[j].0 != id,
        },
    decreases graphs.len(),
{
    if graphs.len() > 0 {
        lemma_graph_index(graphs.drop_first(), id);
        if graphs[0].0 != id {
            assert forall|j: int| 1 <= j < graphs.len() implies graphs[j] == graphs.drop_first()[j - 1] by {}
        }
    }
}

proof fn lemma_graph_index_update(graphs: Seq<(u128, PublishedGraph)>, i: int, entry: (u128, PublishedGraph), id: u128)
    requires
        0 <= i < graphs.len(),
        entry.0 == graphs[i].0,
    ensures
        graph_index(graphs.update(i, entry), id) == graph_index(graphs, id),
    decreases graphs.len(),
{
    let u = graphs.update(i, entry);
    assert(u[0].0 == graphs[0].0);
    if i == 0 {
        assert(u.drop_first() =~= graphs.drop_first());
    } else {
        assert(u.drop_first() =~= graphs.drop_first().update(i - 1, entry));
        lemma_graph_index_update(graphs.drop_first(), i - 1, entry, id);
    }
}

proof fn lemma_graph_index_push(graphs: Seq<(u128, PublishedGraph)>, entry: (u128, PublishedGraph), id: u128)
    ensures
        graph_index(graphs, id) is Some ==> graph_index(graphs.push(entry), id) == graph_index(graphs, id),
        graph_index(graphs, id) is None && id == entry.0 ==> graph_index(graphs.push(entry), id) == Some(graphs.len() as int),
        graph_index(graphs, id) is None && id != entry.0 ==> graph_index(graphs.push(entry), id) is None,
    decreases graphs.len(),
{
    let p = graphs.push(entry);
    if graphs.len() > 0 {
        assert(p[0] == graphs[0]);
        assert(p.drop_first() =~= graphs.drop_first().push(entry));
        if graphs[0].0 != id {
            lemma_graph_index_push(graphs.drop_first(), entry, id);
            assert(graph_index(p, id) == match graph_index(graphs.drop_first().push(entry), id) {
                Some(i) => Some(i + 1),
                None => None::<int>,
            });
        }
    } else {
        assert(p[0] == entry);
        assert(p.drop_first() =~= Seq::<(u128, PublishedGraph)>::empty());
        assert(graph_index(Seq::<(u128, PublishedGraph)>::empty(), id) is None);
    }
}

/// The graph `g` has the same entry in `kept` as in `all`, or none in both.
pub open spec fn retained(kept: Seq<(u128, PublishedGraph)>, all: Seq<(u128, PublishedGraph)>, g: u128) -> bool {
    match graph_index(kept, g) {
        Some(x) => graph_index(all, g) matches Some(y) && kept[x] == all[y],
        None => graph_index(all, g) is None,
    }
}

impl K8sState {
    /// What was published of graph `id`, if anything.
    pub closed spec fn published(&self, id: u128) -> Option<(Seq<(Seq<char>, Seq<u8>)>, Option<Seq<char>>)> {
        match graph_index(self.graphs@, id) {
            Some(i) => Some(graph_view(self.graphs@[i].1)),
            None => None,
        }
    }

    /// Nothing published yet.
    pub fn new() -> (s: Self)
        ensures
            forall|id: u128| s.published(id) is None,
    {
        K8sState { graphs: Vec::new() }
    }

    fn find(&self, id: u128) -> (at: Option<usize>)
        ensures
            match at {
                Some(i) => graph_index(self.graphs@, id) == Some(i as int),
                None => graph_index(self.graphs@, id) is None,
            },
    {
        proof {
            lemma_graph_index(self.graphs@, id);
        }
        let mut i: usize = 0;
        while i < self.graphs.len()
            invariant
                i <= self.graphs@.len(),
                forall|k: int| 0 <= k < i ==> self.graphs@[k].0 != id,
                match graph_index(self.graphs@, id) {
                    Some(x) => 0 <= x < self.graphs@.len() && self.graphs@[x].0 == id && forall|j: int|
                        0 <= j < x ==> self.graphs@[j].0 != id,
                    None => forall|j: int| 0 <= j < self.graphs@.len() ==> self.graphs@[j].0 != id,
                },
            decreases self.graphs@.len() - i,
        {
            if self.graphs[i].0 == id {
                return Some(i);
            }
            i = i + 1;
        }
        None
    }

    /// The revision to report again for graph `id` when `files` are what
    /// its last publication holds: that publication's revision, if it made
    /// one.
    pub fn unchanged_revision(&self, id: u128, files: &PublishedFiles) -> (r: Option<String>)
        ensures
            r matches Some(rev) ==> (self.published(id) matches Some((f, Some(p))) && f == files.files() && p == rev@),
            r is None ==> !(self.published(id) matches Some((f, Some(_))) && f == files.files()),
            match r {
                Some(rev) => reuse_of(self.published(id), files.files()) == Some(rev@),
                None => reuse_of(self.published(id), files.files()) is None,
            },
    {
        match self.find(id) {
            None => None,
            Some(i) => {
                proof {
                    lemma_graph_index(self.graphs@, id);
                }
                let graph = &self.graphs[i].1;
                if graph.files.same(files) {
                    match &graph.revision {
                        Some(rev) => Some(rev.clone()),
                        None => None,
                    }
                } else {
                    None
                }
            },
        }
    }

    /// Records the revision a republication of graph `id` made; nothing
    /// when the graph was not published.
    pub fn set_revision(&mut self, id: u128, revision: String)
        ensures
            match old(self).published(id) {
                Some((f, _)) => final(self).published(id) == Some((f, Some(revision@))),
                None => final(self).published(id) is None,
            },
            forall|g: u128| g != id ==> final(self).published(g) == old(self).published(g),
    {
        match self.find(id) {
            None => {},
            Some(i) => {
                proof {
                    lemma_graph_index(self.graphs@, id);
                }
                let ghost before = self.graphs@;
                let mut graphs: Vec<(u128, PublishedGraph)> = Vec::new();
                std::mem::swap(&mut graphs, &mut self.graphs);
                let (gid, graph) = graphs.remove(i);
                let PublishedGraph { files, resources, revision: _ } = graph;
                graphs.insert(i, (gid, PublishedGraph { files, resources, revision: Some(revision) }));
                self.graphs = graphs;
                proof {
                    assert forall|g: u128| true implies graph_index(self.graphs@, g) == graph_index(before, g) by {
                        assert(self.graphs@ =~= before.update(i as int, self.graphs@[i as int]));
                        lemma_graph_index_update(before, i as int, self.graphs@[i as int], g);
                    }
                    assert forall|g: u128| g != id implies self.published(g) == old(self).published(g) by {
                        lemma_graph_index(before, g);
                        if let Some(x) = graph_index(before, g) {
                            assert(x != i);
                            assert(self.graphs@[x] == before[x]);
                        }
                    }
                }
            },
        }
    }

    /// Forgets graph `id`.
    pub fn retire(&mut self, id: u128)
        ensures
            final(self).published(id) is None,
            forall|g: u128| g != id ==> final(self).published(g) == old(self).published(g),
    {
        let mut graphs: Vec<(u128, PublishedGraph)> = Vec::new();
        std::mem::swap(&mut graphs, &mut self.graphs);
        let ghost all = graphs@;
        let mut kept: Vec<(u128, PublishedGraph)> = Vec::new();
        let mut rest = graphs;
        let mut done: usize = 0;
        assert(all.skip(0) =~= all);
        assert(all.len() == rest.len());
        while rest.len() > 0
            invariant
                all == old(self).graphs@,
                all.len() <= usize::MAX,
                done + rest@.len() == all.len(),
                rest@ == all.skip(done as int),
                forall|j: int| 0 <= j < kept@.len() ==> kept@[j].0 != id,
                forall|g: u128| g != id ==> #[trigger] retained(kept@, all.take(done as int), g),
            decreases rest@.len(),
        {
            let entry = rest.remove(0);
            proof {
                assert(all.skip(done as int)[0] == entry);
                assert(all.skip(done as int).drop_first() =~= all.skip(done + 1));
                assert(all.take(done + 1) =~= all.take(done as int).push(entry));
            }
            let ghost before = kept@;
            if entry.0 != id {
                kept.push(entry);
            }
            proof {
                assert forall|g: u128| g != id implies #[trigger] retained(kept@, all.take(done + 1), g) by {
                    let prefix = all.take(done as int);
                    assert(retained(before, prefix, g));
                    lemma_graph_index_push(prefix, entry, g);
                    lemma_graph_index(before, g);
                    lemma_graph_index(prefix, g);
                    if entry.0 != id {
                        lemma_graph_index_push(before, entry, g);
                        match graph_index(before, g) {
                            Some(x) => {
                                let y = graph_index(prefix, g)->0;
                                assert(kept@[x] == before[x]);
                                assert(all.take(done + 1)[y] == all[y]);
                            },
                            None => {
                                if entry.0 == g {
                                    assert(kept@[before.len() as int] == entry);
                                    assert(all[done as int] == entry);
                                }
                            },
                        }
                    } else {
                        assert(kept@ == before);
                        if let Some(y) = graph_index(prefix, g) {
                            assert(all.take(done + 1)[y] == all[y]);
                        }
                    }
                }
            }
            done = done + 1;
        }
        self.graphs = kept;
        proof {
            assert(all.take(done as int) =~= all);
            lemma_graph_index(self.graphs@, id);
            assert forall|g: u128| g != id implies self.published(g) == old(self).published(g) by {
                assert(retained(kept@, all.take(done as int), g));
                lemma_graph_index(all, g);
            }
        }
    }

    /// Records that `graph` was published for graph `id` as `revision`.
    pub fn record(&mut self, id: u128, graph: PublishedGraph, revision: String)
        ensures
            final(self).published(id) == Some((graph.files.files(), Some(revision@))),
            forall|other: u128| other != id ==> final(self).published(other) == old(self).published(other),
    {
        let ghost files = graph.files.files();
        let published = PublishedGraph { files: graph.files, resources: graph.resources, revision: Some(revision) };
        match self.find(id) {
            Some(i) => {
                proof {
                    lemma_graph_index(self.graphs@, id);
                }
                let ghost before = self.graphs@;
                self.graphs.set(i, (id, published));
                proof {
                    assert forall|other: u128| other != id implies self.published(other) == old(self).published(other) by {
                        lemma_graph_index_update(before, i as int, (id, published), other);
                        lemma_graph_index(before, other);
                        if let Some(x) = graph_index(before, other) {
                            assert(x != i);
                            assert(self.graphs@[x] == before[x]);
                        }
                    }
                    lemma_graph_index_update(before, i as int, (id, published), id);
                }
            },
            None => {
                let ghost before = self.graphs@;
                self.graphs.push((id, published));
                proof {
                    assert forall|other: u128| other != id implies self.published(other) == old(self).published(other) by {
                        lemma_graph_index_push(before, (id, published), other);
                        lemma_graph_index(before, other);
                        if let Some(x) = graph_index(before, other) {
                            assert(self.graphs@[x] == before[x]);
                        }
                    }
                    lemma_graph_index_push(before, (id, published), id);
                }
            },
        }
    }
}

/// What an unchanged render of a graph reuses: the revision of its last
/// publication, when that publication holds exactly the same files.
pub open spec fn reuse_of(
    published: Option<(Seq<(Seq<char>, Seq<u8>)>, Option<Seq<char>>)>,
    files: Seq<(Seq<char>, Seq<u8>)>,
) -> Option<Seq<char>> {
    match published {
        Some((f, Some(r))) => if f == files {
            Some(r)
        } else {
            None
        },
        _ => None,
    }
}

/// Publishing is idempotent: once a publication of some files is recorded
/// as a revision, rendering the same files again reuses that revision
/// instead of publishing.
pub proof fn law_unchanged_graph_reuses_revision(files: Seq<(Seq<char>, Seq<u8>)>, revision: Seq<char>)
    ensures
        reuse_of(Some((files, Some(revision))), files) == Some(revision),
{
}

/// What superseding resources `ids` leaves of a publication: the same
/// revision; only files that were there before; no file of a superseded
/// resource; and every file that is no superseded resource's file, as it was.
pub open spec fn superseded_from(
    before: Option<(Seq<(Seq<char>, Seq<u8>)>, Option<Seq<char>>)>,
    after: Option<(Seq<(Seq<char>, Seq<u8>)>, Option<Seq<char>>)>,
    entries: Seq<(u128, Seq<char>)>,
    ids: Seq<u128>,
) -> bool {
    let (old_files, old_revision) = before->0;
    let (new_files, new_revision) = after->0;
    &&& before is Some
    &&& after is Some
    &&& new_revision == old_revision
    &&& forall|q: int| 0 <= q < new_files.len() ==> old_files.contains(#[trigger] new_files[q])
    &&& forall|j: int, q: int|
        0 <= j < entries.len() && ids.contains(entries[j].0) && 0 <= q < new_files.len() ==> #[trigger] new_files[q].0
            != #[trigger] entries[j].1
    &&& forall|q: int|
        0 <= q < old_files.len() && !superseded_path(entries, ids, #[trigger] old_files[q].0) ==> new_files.contains(
            old_files[q],
        )
}

/// Resource entries as plain values: each id with its file's path.
pub open spec fn entry_pairs(s: Seq<(u128, String)>) -> Seq<(u128, Seq<char>)> {
    s.map_values(|e: (u128, String)| (e.0, e.1@))
}

proof fn lemma_entry_push_contains(s: Seq<(u128, Seq<char>)>, x: (u128, Seq<char>))
    ensures
        forall|y: (u128, Seq<char>)| #[trigger] s.push(x).contains(y) <==> s.contains(y) || x == y,
{
    assert forall|y: (u128, Seq<char>)| #[trigger] s.push(x).contains(y) <==> s.contains(y) || x == y by {
        if s.push(x).contains(y) {
            let i = choose|i: int| 0 <= i < s.len() + 1 && s.push(x)[i] == y;
            if i < s.len() {
                assert(s[i] == y);
            }
        }
        if s.contains(y) {
            let i = choose|i: int| 0 <= i < s.len() && s[i] == y;
            assert(s.push(x)[i] == y);
        }
        assert(s.push(x)[s.len() as int] == x);
    }
}

/// Whether `path` is the file of some entry whose resource is among `ids`.
pub open spec fn superseded_path(entries: Seq<(u128, Seq<char>)>, ids: Seq<u128>, path: Seq<char>) -> bool {
    exists|j: int| 0 <= j < entries.len() && ids.contains(#[trigger] entries[j].0) && entries[j].1 == path
}

impl K8sState {
    /// The resource files recorded for graph `id`: each resource's id and
    /// path.
    pub closed spec fn resource_files(&self, id: u128) -> Seq<(u128, Seq<char>)> {
        match graph_index(self.graphs@, id) {
            Some(i) => self.graphs@[i].1.resources@.map_values(|e: (u128, String)| (e.0, e.1@)),
            None => Seq::empty(),
        }
    }

    /// The files last published for graph `id`, if any.
    pub fn files_of(&self, id: u128) -> (files: Option<&PublishedFiles>)
        ensures
            match self.published(id) {
                Some((f, _)) => files matches Some(x) && x.files() == f,
                None => files is None,
            },
    {
        match self.find(id) {
            None => None,
            Some(i) => {
                proof {
                    lemma_graph_index(self.graphs@, id);
                }
                Some(&self.graphs[i].1.files)
            },
        }
    }

    /// Drops the files of the superseded resources `ids` from graph `id`'s
    /// publication, with their entries, and says whether the graph was
    /// published at all. Every file left was there before; no file of a
    /// superseded resource is left; the revision stays until the caller
    /// records the new one.
    pub fn supersede(&mut self, id: u128, ids: &Vec<u128>) -> (published: bool)
        ensures
            published == (old(self).published(id) is Some),
            forall|g: u128| g != id ==> final(self).published(g) == old(self).published(g),
            !published ==> final(self).published(id) == old(self).published(id),
            published ==> superseded_from(
                old(self).published(id),
                final(self).published(id),
                old(self).resource_files(id),
                ids@,
            ),
            published ==> forall|e: (u128, Seq<char>)| #[trigger] final(self).resource_files(id).contains(e) <==> old(
                self,
            ).resource_files(id).contains(e) && !ids@.contains(e.0),
    {
        match self.find(id) {
            None => false,
            Some(i) => {
                proof {
                    lemma_graph_index(self.graphs@, id);
                }
                let ghost before = self.graphs@;
                let mut graphs: Vec<(u128, PublishedGraph)> = Vec::new();
                std::mem::swap(&mut graphs, &mut self.graphs);
                let (gid, graph) = graphs.remove(i);
                let ghost old_files = graph.files.files();
                let ghost old_entries = graph.resources@.map_values(|e: (u128, String)| (e.0, e.1@));
                let PublishedGraph { mut files, resources, revision } = graph;
                let mut kept: Vec<(u128, String)> = Vec::new();
                let mut j: usize = 0;
                while j < resources.len()
                    invariant
                        j <= resources@.len(),
                        old_entries == resources@.map_values(|e: (u128, String)| (e.0, e.1@)),
                        forall|q: int| 0 <= q < files.files().len() ==> old_files.contains(#[trigger] files.files()[q]),
                        forall|x: int, q: int|
                            0 <= x < j && ids@.contains(old_entries[x].0) && 0 <= q < files.files().len() ==> #[trigger] files.files()[q].0
                                != #[trigger] old_entries[x].1,
                        forall|q: int|
                            0 <= q < old_files.len() && !superseded_path(old_entries.take(j as int), ids@, #[trigger] old_files[q].0)
                                ==> files.files().contains(old_files[q]),
                        forall|e: (u128, Seq<char>)| #[trigger] entry_pairs(kept@).contains(e)
                            <==> old_entries.take(j as int).contains(e) && !ids@.contains(e.0),
                    decreases resources@.len() - j,
                {
                    let entry = &resources[j];
                    let mut superseded = false;
                    let mut k: usize = 0;
                    while k < ids.len()
                        invariant
                            k <= ids@.len(),
                            superseded == ids@.take(k as int).contains(entry.0),
                        decreases ids@.len() - k,
                    {
                        proof {
                            let t = ids@.take(k as int);
                            let u = ids@.take(k + 1);
                            assert(u =~= t.push(ids@[k as int]));
                            if u.contains(entry.0) {
                                let w = choose|w: int| 0 <= w < u.len() && u[w] == entry.0;
                                if w < k {
                                    assert(t[w] == entry.0);
                                }
                            }
                            if t.contains(entry.0) {
                                let w = choose|w: int| 0 <= w < t.len() && t[w] == entry.0;
                                assert(u[w] == entry.0);
                            }
                            if ids@[k as int] == entry.0 {
                                assert(u[k as int] == entry.0);
                            }
                        }
                        if ids[k] == entry.0 {
                            superseded = true;
                        }
                        k = k + 1;
                    }
                    assert(ids@.take(k as int) =~= ids@);
                    let ghost previous = files.files();
                    let ghost kept_before = kept@;
                    if superseded {
                        files.remove(entry.1.as_str());
                    } else {
                        kept.push((entry.0, entry.1.clone()));
                    }
                    proof {
                        let kv = entry_pairs(kept@);
                        let kb = entry_pairs(kept_before);
                        let t0 = old_entries.take(j as int);
                        let t1 = old_entries.take(j + 1);
                        assert(t1 =~= t0.push(old_entries[j as int]));
                        assert(old_entries[j as int] == (entry.0, entry.1@));
                        lemma_entry_push_contains(t0, old_entries[j as int]);
                        if !superseded {
                            assert(kv =~= kb.push((entry.0, entry.1@)));
                            lemma_entry_push_contains(kb, (entry.0, entry.1@));
                        } else {
                            assert(kv =~= kb);
                        }
                    }
                    proof {
                        assert(old_entries[j as int] == (entry.0, entry.1@));
                        assert forall|q: int| 0 <= q < files.files().len() implies old_files.contains(#[trigger] files.files()[q]) by {
                            if superseded {
                                let w = choose|w: int| 0 <= w < previous.len() && previous[w] == files.files()[q];
                                assert(old_files.contains(previous[w]));
                            }
                        }
                        assert forall|x: int, q: int|
                            0 <= x < j + 1 && ids@.contains(old_entries[x].0) && 0 <= q < files.files().len() implies #[trigger] files.files()[q].0
                                != #[trigger] old_entries[x].1 by {
                            if superseded && x < j {
                                let w = choose|w: int| 0 <= w < previous.len() && previous[w] == files.files()[q];
                                assert(previous[w].0 != old_entries[x].1);
                            }
                        }
                        assert forall|q: int|
                            0 <= q < old_files.len() && !superseded_path(old_entries.take(j + 1), ids@, #[trigger] old_files[q].0)
                            implies files.files().contains(old_files[q]) by {
                            let path = old_files[q].0;
                            if superseded_path(old_entries.take(j as int), ids@, path) {
                                let x = choose|x: int| 0 <= x < j && ids@.contains(#[trigger] old_entries.take(j as int)[x].0)
                                    && old_entries.take(j as int)[x].1 == path;
                                assert(old_entries.take(j + 1)[x] == old_entries.take(j as int)[x]);
                            }
                            assert(previous.contains(old_files[q]));
                            if superseded {
                                assert(old_entries.take(j + 1)[j as int] == old_entries[j as int]);
                                if entry.1@ == path {
                                    assert(ids@.contains(old_entries.take(j + 1)[j as int].0));
                                    assert(superseded_path(old_entries.take(j + 1), ids@, path));
                                }
                                let w = choose|w: int| 0 <= w < previous.len() && previous[w] == old_files[q];
                                assert(previous[w].0 != entry.1@);
                            }
                        }
                    }
                    j = j + 1;
                }
                let ghost kept_view = entry_pairs(kept@);
                proof {
                    assert(old_entries.take(resources@.len() as int) =~= old_entries);
                }
                graphs.insert(i, (gid, PublishedGraph { files, resources: kept, revision }));
                self.graphs = graphs;
                proof {
                    assert forall|g: u128| true implies graph_index(self.graphs@, g) == graph_index(before, g) by {
                        assert(self.graphs@ =~= before.update(i as int, self.graphs@[i as int]));
                        lemma_graph_index_update(before, i as int, self.graphs@[i as int], g);
                    }
                    assert forall|g: u128| g != id implies self.published(g) == old(self).published(g) by {
                        lemma_graph_index(before, g);
                        if let Some(x) = graph_index(before, g) {
                            assert(x != i);
                            assert(self.graphs@[x] == before[x]);
                        }
                    }
                    assert(graph_index(self.graphs@, id) == Some(i as int));
                    assert(self.resource_files(id) =~= kept_view);
                    assert(old(self).resource_files(id) =~= old_entries);
                }
                true
            },
        }
    }
}

} // verus!

verus! {

/// What can be published: a resource of another kind or version than
/// `k8s/object` version one is refused as unsupported; one whose body is
/// not an object, or lacks a string `apiVersion` or a string `kind`, is
/// refused as invalid; any other is accepted.
pub proof fn law_publishable_objects(path: Seq<char>, kind: Seq<char>, version: u32, body: JsonView)
    ensures
        kind != k8s_kind() || version != 1 ==> (object_fault(path, kind, version, body) matches Some(m) && m.take(
            27,
        ) == "error[k8s.kind.unsupported]"@),
        kind == k8s_kind() && version == 1 ==> (object_fault(path, kind, version, body) is None <==> (body matches JsonView::Object(
            entries,
        ) && field_of(entries, "apiVersion"@) matches Some(JsonView::Str(_)) && field_of(entries, "kind"@) matches Some(
            JsonView::Str(_),
        ))),
        kind == k8s_kind() && version == 1 && !(body is Object) ==> object_fault(path, kind, version, body) == Some(
            "error[k8s.object.invalid]: "@ + path + " body is not an object"@,
        ),
{
    reveal_strlit("error[k8s.kind.unsupported]: ");
    reveal_strlit("error[k8s.kind.unsupported]");
    let head = "error[k8s.kind.unsupported]: "@;
    if kind != k8s_kind() || version != 1 {
        let m = object_fault(path, kind, version, body)->Some_0;
        assert(m.take(27) =~= head.take(27));
        assert(head.take(27) =~= "error[k8s.kind.unsupported]"@);
    }
}

} // verus!

verus! {

/// A resource's file lies under `components/` and its component instance,
/// is named by the resource's name, `--` and its id, and ends in `.yaml`.
pub proof fn law_resource_file_path(instance: Seq<char>, name: Seq<char>, id: Seq<char>)
    ensures
        ({
            let p = resource_file_path(instance, name, id);
            &&& p.take(12 + instance.len() as int) == "components/"@ + instance + "/"@
            &&& p.skip(p.len() - 5) == ".yaml"@
            &&& p.subrange(12 + instance.len() as int, p.len() - 5) == name + "--"@ + id
        }),
{
    reveal_strlit("components/");
    reveal_strlit("/");
    reveal_strlit(".yaml");
    reveal_strlit("--");
    let p = resource_file_path(instance, name, id);
    assert(p == "components/"@ + instance + "/"@ + name + "--"@ + id + ".yaml"@);
    assert(p.take(12 + instance.len() as int) =~= "components/"@ + instance + "/"@);
    assert(p.skip(p.len() - 5) =~= ".yaml"@);
    assert(p.subrange(12 + instance.len() as int, p.len() - 5) =~= name + "--"@ + id);
}

} // verus!
