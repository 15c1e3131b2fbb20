//! Content-addressed artifact files and the Git repository a controller
//! publishes to: where an artifact lives, what a fetched artifact must hash
//! to, and the values a publication deals in.

use vstd::prelude::*;

use crate::digest::{hex_encode, hex_text, sha256, sha256_digest};

verus! {

/// `base` joined with the relative, non-empty `part`, as `Path::join`
/// joins them on Unix.
pub open spec fn joined_path(base: Seq<char>, part: Seq<char>) -> Seq<char> {
    if base.len() == 0 {
        part
    } else if base.last() == '/' {
        base + part
    } else {
        base + seq!['/'] + part
    }
}

fn join_path(base: &str, part: &str) -> (path: String)
    ensures
        path@ == joined_path(base@, part@),
{
    let n = base.unicode_len();
    let mut path = base.to_string();
    if n > 0 && base.get_char(n - 1) != '/' {
        proof {
            reveal_strlit("/");
        }
        path.append("/");
    }
    path.append(part);
    path
}

/// A directory of artifacts, each stored under `sha256/` and the hex of its
/// SHA-256 digest.
#[derive(Clone, Debug)]
pub struct DirectoryArtifactStore {
    root: String,
}

impl DirectoryArtifactStore {
    /// The directory this store reads from.
    pub closed spec fn root_view(&self) -> Seq<char> {
        self.root@
    }

    /// A store rooted at `root`.
    pub fn new(root: String) -> (store: Self)
        ensures
            store.root_view() == root@,
    {
        DirectoryArtifactStore { root }
    }

    /// Where the artifact with `digest` is stored.
    pub fn path(&self, digest: &[u8; 32]) -> (path: String)
        ensures
            path@ == joined_path(joined_path(self.root_view(), "sha256"@), hex_text(digest@)),
    {
        let dir = join_path(self.root.as_str(), "sha256");
        let hex = hex_encode(digest);
        join_path(dir.as_str(), hex.as_str())
    }
}

/// Why an artifact could not be fetched.
#[derive(Clone, Debug, PartialEq, Eq)]
pub enum ArtifactStoreError {
    Missing { digest: [u8; 32] },
    Unavailable { digest: [u8; 32], message: String },
    DigestMismatch { digest: [u8; 32], actual: [u8; 32] },
}

fn same_digest(a: &[u8; 32], b: &[u8; 32]) -> (same: bool)
    ensures
        same == (a@ == b@),
{
    let mut i: usize = 0;
    while i < 32
        invariant
            i <= 32,
            a@.len() == 32,
            b@.len() == 32,
            forall|j: int| 0 <= j < i ==> a@[j] == b@[j],
        decreases 32 - i,
    {
        if a[i] != b[i] {
            return false;
        }
        i = i + 1;
    }
    assert(a@ =~= b@);
    true
}

/// Accepts fetched bytes only when they hash to the digest they were
/// fetched by.
pub fn verify_artifact(digest: [u8; 32], bytes: Vec<u8>) -> (r: Result<Vec<u8>, ArtifactStoreError>)
    ensures
        sha256_digest(bytes@) == digest@ ==> (r matches Ok(b) && b@ == bytes@),
        sha256_digest(bytes@) != digest@ ==> (r matches Err(ArtifactStoreError::DigestMismatch { digest: d, actual })
            && d == digest && actual@ == sha256_digest(bytes@)),
{
    let actual = sha256(bytes.as_slice());
    if !same_digest(&actual, &digest) {
        return Err(ArtifactStoreError::DigestMismatch { digest, actual });
    }
    Ok(bytes)
}

// === Git publication ===

/// The Git repository a controller publishes to, by its remote.
#[derive(Clone, Debug)]
pub struct GitRepository {
    remote: String,
}

impl GitRepository {
    /// The remote this repository publishes to.
    pub closed spec fn remote_view(&self) -> Seq<char> {
        self.remote@
    }

    /// The repository at `remote`.
    pub fn new(remote: String) -> (repository: Self)
        ensures
            repository.remote_view() == remote@,
    {
        GitRepository { remote }
    }

    /// The remote this repository publishes to.
    pub fn remote(&self) -> (remote: &str)
        ensures
            remote@ == self.remote_view(),
    {
        self.remote.as_str()
    }
}

/// What a publication replaces: the whole branch, or one directory of it.
#[derive(Clone, Debug, PartialEq, Eq)]
pub enum PublicationMode {
    ReplaceBranch,
    ReplaceDirectory(String),
}

/// The revision a publication left the branch at, and whether it changed.
#[derive(Clone, Debug, PartialEq, Eq)]
pub struct GitPublication {
    pub revision: String,
    pub changed: bool,
}

/// Why a Git publication failed.
#[derive(Clone, Debug, PartialEq, Eq)]
pub enum GitError {
    PreconditionFailed,
    NonUtf8Path,
    Command(String),
    Io(String),
}

/// A Git error as its `Display` shows it.
pub open spec fn git_error_text(e: GitError) -> Seq<char> {
    match e {
        GitError::PreconditionFailed => "git publication changed since it was observed"@,
        GitError::NonUtf8Path => "git target path is not UTF-8"@,
        GitError::Command(m) => "git command failed: "@ + m@,
        GitError::Io(m) => "git target I/O failed: "@ + m@,
    }
}

impl GitError {
    /// The error as its `Display` shows it.
    pub fn message(&self) -> (text: String)
        ensures
            text@ == git_error_text(*self),
    {
        match self {
            GitError::PreconditionFailed => String::from_str("git publication changed since it was observed"),
            GitError::NonUtf8Path => String::from_str("git target path is not UTF-8"),
            GitError::Command(m) => {
                let mut t = String::from_str("git command failed: ");
                t.append(m.as_str());
                t
            },
            GitError::Io(m) => {
                let mut t = String::from_str("git target I/O failed: ");
                t.append(m.as_str());
                t
            },
        }
    }
}

/// The lease a push takes: the branch may only move from the revision that
/// was read, none when the branch did not exist.
pub open spec fn lease_text(branch: Seq<char>, expected_revision: Seq<char>) -> Seq<char> {
    "--force-with-lease=refs/heads/"@ + branch + ":"@ + expected_revision
}

/// The lease argument of a push.
pub fn lease_argument(branch: &str, expected_revision: &str) -> (arg: String)
    ensures
        arg@ == lease_text(branch@, expected_revision@),
{
    let mut t = String::from_str("--force-with-lease=refs/heads/");
    t.append(branch);
    t.append(":");
    t.append(expected_revision);
    t
}

} // verus!
