//! Git repositories as protofetch uses them: the operations a backend offers, and the
//! decisions taken on their answers.
pub mod hosts;
pub mod repository;
pub mod worktree;

use vstd::prelude::*;

use crate::text::{spec_lowercase, str_eq, to_lowercase};

verus! {

/// A git object id (a commit hash), as hexadecimal text.
#[derive(Debug, PartialEq, Eq, Hash)]
pub struct GitOid {
    hex: String,
}

impl View for GitOid {
    type V = Seq<char>;

    closed spec fn view(&self) -> Seq<char> {
        self.hex@
    }
}

impl Clone for GitOid {
    fn clone(&self) -> (r: Self)
        ensures
            r@ == self@,
    {
        GitOid { hex: self.hex.clone() }
    }
}

impl GitOid {
    /// The object id written `hex`.
    pub fn from_hex(hex: String) -> (r: GitOid)
        ensures
            r@ == hex@,
    {
        GitOid { hex }
    }

    /// The hexadecimal text.
    pub fn as_str(&self) -> (r: &str)
        ensures
            r@ == self@,
    {
        self.hex.as_str()
    }

    /// The same object id.
    pub fn same(&self, other: &GitOid) -> (r: bool)
        ensures
            r == (self@ == other@),
    {
        str_eq(self.hex.as_str(), other.hex.as_str())
    }
}

/// What can go wrong in a git backend.
#[derive(Debug)]
pub enum GitBackendError {
    GitError(String),
    NotFound(String),
    RepoNotFound(String),
    AuthError(String),
    InvalidRef(String),
    CommandFailed(String),
    IO(String),
    Utf8(String),
}

/// The content of a git backend error: which one, and its message.
pub enum GitBackendErrorView {
    GitError(Seq<char>),
    NotFound(Seq<char>),
    RepoNotFound(Seq<char>),
    AuthError(Seq<char>),
    InvalidRef(Seq<char>),
    CommandFailed(Seq<char>),
    IO(Seq<char>),
    Utf8(Seq<char>),
}

impl View for GitBackendError {
    type V = GitBackendErrorView;

    open spec fn view(&self) -> GitBackendErrorView {
        match self {
            GitBackendError::GitError(m) => GitBackendErrorView::GitError(m@),
            GitBackendError::NotFound(m) => GitBackendErrorView::NotFound(m@),
            GitBackendError::RepoNotFound(m) => GitBackendErrorView::RepoNotFound(m@),
            GitBackendError::AuthError(m) => GitBackendErrorView::AuthError(m@),
            GitBackendError::InvalidRef(m) => GitBackendErrorView::InvalidRef(m@),
            GitBackendError::CommandFailed(m) => GitBackendErrorView::CommandFailed(m@),
            GitBackendError::IO(m) => GitBackendErrorView::IO(m@),
            GitBackendError::Utf8(m) => GitBackendErrorView::Utf8(m@),
        }
    }
}

/// What a worktree creation found: a new worktree, or one already there at the given
/// canonical path.
#[derive(Debug, PartialEq, Eq)]
pub enum WorktreeResult {
    Created,
    Existing(String),
}

/// The view of a result with nothing in it.
pub open spec fn unit_result_view(r: Result<(), GitBackendError>) -> Result<(), GitBackendErrorView> {
    match r {
        Ok(()) => Ok(()),
        Err(e) => Err(e@),
    }
}

/// The view of a yes-or-no answer.
pub open spec fn bool_result_view(r: Result<bool, GitBackendError>) -> Result<bool, GitBackendErrorView> {
    match r {
        Ok(b) => Ok(b),
        Err(e) => Err(e@),
    }
}

/// The view of an object id found.
pub open spec fn oid_result_view(r: Result<GitOid, GitBackendError>) -> Result<Seq<char>, GitBackendErrorView> {
    match r {
        Ok(o) => Ok(o@),
        Err(e) => Err(e@),
    }
}

/// The view of a file read at a commit.
pub open spec fn read_result_view(r: Result<Option<Vec<u8>>, GitBackendError>) -> Result<
    Option<Seq<u8>>,
    GitBackendErrorView,
> {
    match r {
        Ok(Some(b)) => Ok(Some(b@)),
        Ok(None) => Ok(None),
        Err(e) => Err(e@),
    }
}

/// The operations on one repository that a git backend offers. What a backend answers
/// is its own (it depends on the repository on disk and on the network); the relations
/// below only record that an answer came for these arguments. A backend that does not
/// state them admits any answer; code generic over the backend knows of them only
/// what the operations' contracts say.
pub trait GitRepository {
    /// `r` is an answer of `fetch` from the remote with these refspecs.
    closed spec fn fetched(&self, remote: Seq<char>, refspecs: Seq<Seq<char>>, r: Result<(), GitBackendErrorView>) -> bool {
        true
    }

    /// `r` is an answer of `commit_exists` for the id.
    closed spec fn commit_found(&self, oid: Seq<char>, r: Result<bool, GitBackendErrorView>) -> bool {
        true
    }

    /// `r` is an answer of `revparse_commit` for the revision.
    closed spec fn revparsed(&self, spec: Seq<char>, r: Result<Seq<char>, GitBackendErrorView>) -> bool {
        true
    }

    /// `r` is an answer of `read_blob` for the file at the commit.
    closed spec fn blob_read(&self, commit: Seq<char>, path: Seq<char>, r: Result<Option<Seq<u8>>, GitBackendErrorView>) -> bool {
        true
    }

    /// `r` is an answer of `is_ancestor` for the two commits.
    closed spec fn ancestry(&self, ancestor: Seq<char>, descendant: Seq<char>, r: Result<bool, GitBackendErrorView>) -> bool {
        true
    }

    fn remote_add(&self, name: &str, url: &str) -> Result<(), GitBackendError>;

    fn remote_get_url(&self, name: &str) -> Result<Option<String>, GitBackendError>;

    fn remote_set_url(&self, name: &str, url: &str) -> Result<(), GitBackendError>;

    fn fetch(&self, remote_name: &str, refspecs: &[String]) -> (r: Result<(), GitBackendError>)
        ensures
            self.fetched(remote_name@, crate::text::views(refspecs@), unit_result_view(r)),
    ;

    fn commit_exists(&self, oid: &str) -> (r: Result<bool, GitBackendError>)
        ensures
            self.commit_found(oid@, bool_result_view(r)),
    ;

    fn revparse_commit(&self, spec: &str) -> (r: Result<GitOid, GitBackendError>)
        ensures
            self.revparsed(spec@, oid_result_view(r)),
    ;

    fn read_blob(&self, commit: &str, blob_path: &str) -> (r: Result<Option<Vec<u8>>, GitBackendError>)
        ensures
            self.blob_read(commit@, blob_path@, read_result_view(r)),
    ;

    /// Whether `ancestor` is an ancestor of `descendant`.
    fn is_ancestor(&self, ancestor: &GitOid, descendant: &GitOid) -> (r: Result<bool, GitBackendError>)
        ensures
            self.ancestry(ancestor@, descendant@, bool_result_view(r)),
    ;

    fn create_worktree(&self, name: &str, worktree_path: &str, commit: &str) -> Result<
        WorktreeResult,
        GitBackendError,
    >;

    /// Hard-resets the repository to a commit.
    fn reset(&self, commit: &str) -> Result<(), GitBackendError>;
}

/// Which git implementation runs the operations.
#[derive(Debug, Clone, Copy, PartialEq, Eq, Structural)]
pub enum GitBackendType {
    Libgit2,
    Cli,
}

impl Default for GitBackendType {
    fn default() -> (r: Self)
        ensures
            r == GitBackendType::Libgit2,
    {
        GitBackendType::Libgit2
    }
}

/// The backend a name selects, ignoring case: `libgit2` or `cli`.
pub open spec fn backend_named(s: Seq<char>) -> Option<GitBackendType> {
    if spec_lowercase(s) == "libgit2"@ {
        Some(GitBackendType::Libgit2)
    } else if spec_lowercase(s) == "cli"@ {
        Some(GitBackendType::Cli)
    } else {
        None
    }
}

/// `invalid git backend type: <name>`.
pub open spec fn invalid_backend_message(s: Seq<char>) -> Seq<char> {
    "invalid git backend type: "@ + s
}

impl GitBackendType {
    /// The backend a name selects, ignoring case; otherwise a message naming it.
    pub fn parse(s: &str) -> (r: Result<GitBackendType, String>)
        ensures
            match backend_named(s@) {
                Some(t) => r == Ok::<GitBackendType, String>(t),
                None => r matches Err(m) && m@ == invalid_backend_message(s@),
            },
    {
        let lower = to_lowercase(s);
        if str_eq(lower.as_str(), "libgit2") {
            Ok(GitBackendType::Libgit2)
        } else if str_eq(lower.as_str(), "cli") {
            Ok(GitBackendType::Cli)
        } else {
            Err(crate::text::concat("invalid git backend type: ", s))
        }
    }
}

impl std::str::FromStr for GitBackendType {
    type Err = String;

    fn from_str(s: &str) -> (r: Result<GitBackendType, String>)
        ensures
            match backend_named(s@) {
                Some(t) => r == Ok::<GitBackendType, String>(t),
                None => r matches Err(m) && m@ == invalid_backend_message(s@),
            },
    {
        GitBackendType::parse(s)
    }
}

} // verus!
