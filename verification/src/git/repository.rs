//! A dependency's repository in the cache: what is fetched for a revision
//! specification, how a commit is checked against it, and how the descriptor at a
//! commit is read.
use vstd::prelude::*;

use super::{GitBackendError, GitBackendErrorView, GitOid, GitRepository};
use crate::model::protofetch::descriptor::{descriptor_from_text, Descriptor, DescriptorView};
use crate::model::protofetch::{
    coordinate_url, Coordinate, CoordinateView, ModuleName, Revision, RevisionSpecification,
    SpecificationView,
};
use crate::path::{join_path, join_path_exec, same_path, same_path_exec};
use crate::model::{ParseError, ParseErrorView};
use crate::resolver::CommitAndDescriptor;
use crate::text::{all_hex_digits, char_count, chars_of, concat, is_hex_digit, is_prefix, str_eq};

verus! {

/// What can go wrong with a dependency's repository.
#[derive(Debug)]
pub enum ProtoRepoError {
    /// Reading the descriptor of a module at a commit failed.
    Revparse(ModuleName, String, GitBackendError),
    BackendError(GitBackendError),
    /// The descriptor is not UTF-8 text.
    BlobRead(String),
    Parsing(ParseError),
    BranchNotFound { branch: String },
    RevisionNotOnBranch { revision: String, branch: String },
    PreciseRevisionMismatch { commit_hash: String, revision: String },
    InvalidCommitHash { commit_hash: String },
    CommitNotFound { commit_hash: String },
    WorktreeExists { name: String, existing_path: String, wanted_path: String },
    Canonicalization { path: String, error: String },
    IO(String),
}

/// `origin/<branch>`: the remote's head of a branch.
pub fn branch_ref(branch: &str) -> (r: String)
    ensures
        r@ == "origin/"@ + branch@,
{
    concat("origin/", branch)
}

/// `origin/HEAD`: the remote's default head.
pub fn default_head_ref() -> (r: String)
    ensures
        r@ == "origin/HEAD"@,
{
    String::from_str("origin/HEAD")
}

/// What the repository's answers make of a commit to fetch (see `commit_check`).
pub open spec fn check_outcome(
    specification: SpecificationView,
    commit_hash: Seq<char>,
    present: bool,
    after: Option<bool>,
    on_branch: Option<Result<bool, ()>>,
    pinned_matches: Option<bool>,
    r: Result<(), ProtoRepoError>,
) -> bool {
    &&& !is_commit_hash(commit_hash) ==> (r matches Err(ProtoRepoError::InvalidCommitHash { commit_hash: c })
        && c@ == commit_hash)
    &&& is_commit_hash(commit_hash) && !present && after != Some(true) ==> (r matches Err(
        ProtoRepoError::CommitNotFound { commit_hash: c },
    ) && c@ == commit_hash)
    &&& is_commit_hash(commit_hash) && (present || after == Some(true)) ==> match specification.branch {
        Some(b) => if on_branch == Some(Ok::<bool, ()>(false)) {
            r matches Err(ProtoRepoError::RevisionNotOnBranch { revision, branch }) && revision@ == commit_hash
                && branch@ == b
        } else if on_branch != Some(Ok::<bool, ()>(true)) {
            r matches Err(ProtoRepoError::BranchNotFound { branch }) && branch@ == b
        } else {
            pinned_outcome(specification, commit_hash, pinned_matches, r)
        },
        None => pinned_outcome(specification, commit_hash, pinned_matches, r),
    }
}

/// What the repository's answers make of a specification (see `chosen_commit`).
pub open spec fn chosen_outcome(
    specification: SpecificationView,
    branch_found: bool,
    commit: Seq<char>,
    on_branch: bool,
    r: Result<String, ProtoRepoError>,
) -> bool {
    &&& match specification.branch {
        Some(b) => !branch_found ==> (r matches Err(ProtoRepoError::BranchNotFound { branch }) && branch@ == b),
        None => true,
    }
    &&& match (specification.branch, specification.revision) {
        (Some(b), Some(rev)) => branch_found && !on_branch ==> (r matches Err(
            ProtoRepoError::RevisionNotOnBranch { revision, branch },
        ) && revision@ == rev && branch@ == b),
        _ => true,
    }
    &&& specification.branch is None || (branch_found && (specification.revision is None || on_branch))
        ==> (r matches Ok(c) && c@ == commit)
}

/// `r` is the repository error `e`, passed on.
pub open spec fn passes_on<T>(r: Result<T, ProtoRepoError>, e: GitBackendErrorView) -> bool {
    r matches Err(ProtoRepoError::BackendError(x)) && x@ == e
}

/// The commit looked up is the result, or the repository's error is passed on.
pub open spec fn looked_up(a: Result<Seq<char>, GitBackendErrorView>, r: Result<String, ProtoRepoError>) -> bool {
    match a {
        Ok(c) => r matches Ok(s) && s@ == c,
        Err(e) => passes_on(r, e),
    }
}

/// How the repository's answers decide the commit a specification resolves to: without
/// a branch, the default head `origin/HEAD` or the pinned revision is looked up; with a
/// branch, its head `origin/<branch>` is looked up (not found: the branch is not
/// found), which is the result, or else the pinned revision is looked up and must be an
/// ancestor of that head.
pub open spec fn resolution_answered<R: GitRepository>(
    repo: R,
    s: SpecificationView,
    r: Result<String, ProtoRepoError>,
) -> bool {
    match (s.branch, s.revision) {
        (None, None) => exists|x: Seq<char>, a: Result<Seq<char>, GitBackendErrorView>|
            #[trigger] repo.revparsed(x, a) && x == "origin/HEAD"@ && looked_up(a, r),
        (None, Some(rev)) => exists|x: Seq<char>, a: Result<Seq<char>, GitBackendErrorView>|
            #[trigger] repo.revparsed(x, a) && x == rev && looked_up(a, r),
        (Some(b), None) => exists|x: Seq<char>, a: Result<Seq<char>, GitBackendErrorView>|
            #[trigger] repo.revparsed(x, a) && x == "origin/"@ + b && match a {
                Ok(c) => r matches Ok(y) && y@ == c,
                Err(_) => r matches Err(ProtoRepoError::BranchNotFound { branch }) && branch@ == b,
            },
        (Some(b), Some(rev)) => exists|x: Seq<char>, a: Result<Seq<char>, GitBackendErrorView>|
            #[trigger] repo.revparsed(x, a) && x == "origin/"@ + b && match a {
                Err(_) => r matches Err(ProtoRepoError::BranchNotFound { branch }) && branch@ == b,
                Ok(head) => pinned_on_branch(repo, rev, b, head, r),
            },
    }
}

/// With the branch's head found: the pinned revision is looked up and must be an
/// ancestor of the head.
pub open spec fn pinned_on_branch<R: GitRepository>(
    repo: R,
    rev: Seq<char>,
    b: Seq<char>,
    head: Seq<char>,
    r: Result<String, ProtoRepoError>,
) -> bool {
    exists|x: Seq<char>, a: Result<Seq<char>, GitBackendErrorView>|
        #[trigger] repo.revparsed(x, a) && x == rev && match a {
            Err(e) => passes_on(r, e),
            Ok(c) => exists|y: Seq<char>, h: Seq<char>, o: Result<bool, GitBackendErrorView>|
                #[trigger] repo.ancestry(y, h, o) && y == c && h == head && match o {
                    Err(e) => passes_on(r, e),
                    Ok(true) => r matches Ok(z) && z@ == c,
                    Ok(false) => r matches Err(ProtoRepoError::RevisionNotOnBranch { revision, branch })
                        && revision@ == rev && branch@ == b,
                },
        }
}

/// The repository's answers that `commit_check` judged came from these questions: the
/// commit's presence (asked again once fetched, where it was absent); the branch's head
/// `origin/<branch>` and whether the commit is its ancestor; the pinned revision and
/// whether it is the commit. Each is asked where the answers before it let the check
/// go on.
pub open spec fn commit_answers<R: GitRepository>(
    repo: R,
    s: SpecificationView,
    commit: Seq<char>,
    present: bool,
    after: Option<bool>,
    on_branch: Option<Result<bool, ()>>,
    pinned_matches: Option<bool>,
) -> bool {
    &&& is_commit_hash(commit) ==> repo.commit_found(commit, Ok(present))
    &&& is_commit_hash(commit) && !present ==> after is Some
    &&& after matches Some(b) ==> repo.commit_found(commit, Ok(b))
    &&& on_branch matches Some(Err(())) ==> (s.branch matches Some(b) && exists|e: GitBackendErrorView|
        #[trigger] repo.revparsed("origin/"@ + b, Err(e)))
    &&& on_branch matches Some(Ok(x)) ==> (s.branch matches Some(b) && exists|head: Seq<char>|
        #[trigger] repo.revparsed("origin/"@ + b, Ok(head)) && repo.ancestry(commit, head, Ok(x)))
    &&& pinned_matches matches Some(m) ==> (s.revision matches Some(rev) && exists|c: Seq<char>|
        #[trigger] repo.revparsed(rev, Ok(c)) && m == (c == commit))
    &&& is_commit_hash(commit) && (present || after == Some(true)) && s.branch is Some ==> on_branch is Some
    &&& is_commit_hash(commit) && (present || after == Some(true)) && (s.branch is None || on_branch == Some(
        Ok::<bool, ()>(true),
    )) && s.revision is Some ==> pinned_matches is Some
}

/// What the repository's answers make of a commit to fetch: a commit that is not a full
/// hash is refused; one still absent after fetching is not found; one whose branch's
/// head was not found (`on_branch` an error), or that does not lie on the branch, is
/// refused; one that is not the pinned revision is refused; otherwise it is accepted.
/// `present` is whether the commit was there first, `after` whether it was there once
/// fetched, `on_branch` whether it lies on the specification's branch and
/// `pinned_matches` whether it is the pinned revision (`None` for what was not asked).
pub fn commit_check(
    specification: &RevisionSpecification,
    commit_hash: &str,
    present: bool,
    after: Option<bool>,
    on_branch: Option<Result<bool, ()>>,
    pinned_matches: Option<bool>,
) -> (r: Result<(), ProtoRepoError>)
    ensures
        check_outcome(specification@, commit_hash@, present, after, on_branch, pinned_matches, r),
{
    if !is_full_commit_hash(commit_hash) {
        return Err(ProtoRepoError::InvalidCommitHash { commit_hash: String::from_str(commit_hash) });
    }
    if !present && !matches!(after, Some(true)) {
        return Err(ProtoRepoError::CommitNotFound { commit_hash: String::from_str(commit_hash) });
    }
    if let Some(branch) = &specification.branch {
        match on_branch {
            Some(Ok(true)) => {},
            Some(Ok(false)) => {
                return Err(
                    ProtoRepoError::RevisionNotOnBranch {
                        revision: String::from_str(commit_hash),
                        branch: branch.clone(),
                    },
                );
            },
            _ => return Err(ProtoRepoError::BranchNotFound { branch: branch.clone() }),
        }
    }
    if let Revision::Pinned { revision } = &specification.revision {
        if !matches!(pinned_matches, Some(true)) {
            return Err(
                ProtoRepoError::PreciseRevisionMismatch {
                    commit_hash: String::from_str(commit_hash),
                    revision: revision.clone(),
                },
            );
        }
    }
    Ok(())
}

/// Past the branch: a commit that is not the pinned revision is refused, otherwise it is
/// accepted.
pub open spec fn pinned_outcome(
    spec: SpecificationView,
    commit_hash: Seq<char>,
    pinned_matches: Option<bool>,
    r: Result<(), ProtoRepoError>,
) -> bool {
    match spec.revision {
        Some(rev) => if pinned_matches == Some(true) {
            r is Ok
        } else {
            r matches Err(ProtoRepoError::PreciseRevisionMismatch { commit_hash: c, revision }) && c@ == commit_hash
                && revision@ == rev
        },
        None => r is Ok,
    }
}

/// What the repository's answers make of a specification: with a branch whose head was
/// not found, the branch is not found; with a pinned revision on a branch that it does
/// not lie on, it is refused; otherwise the commit looked up (the branch's head, the
/// pinned revision or the default head) is the result.
pub fn chosen_commit(
    specification: &RevisionSpecification,
    branch_found: bool,
    commit: &GitOid,
    on_branch: bool,
) -> (r: Result<String, ProtoRepoError>)
    ensures
        chosen_outcome(specification@, branch_found, commit@, on_branch, r),
{
    if let Some(branch) = &specification.branch {
        if !branch_found {
            return Err(ProtoRepoError::BranchNotFound { branch: branch.clone() });
        }
        if let Revision::Pinned { revision } = &specification.revision {
            if !on_branch {
                return Err(
                    ProtoRepoError::RevisionNotOnBranch { revision: revision.clone(), branch: branch.clone() },
                );
            }
        }
    }
    Ok(String::from_str(commit.as_str()))
}

/// `+refs/tags/<r>:refs/tags/<r>`
pub open spec fn tag_refspec(r: Seq<char>) -> Seq<char> {
    "+refs/tags/"@ + r + ":refs/tags/"@ + r
}

/// `+refs/heads/*:refs/remotes/origin/*`
pub open spec fn all_branches_refspec() -> Seq<char> {
    "+refs/heads/*:refs/remotes/origin/*"@
}

/// `+refs/heads/<b>:refs/remotes/origin/<b>`
pub open spec fn branch_refspec(b: Seq<char>) -> Seq<char> {
    "+refs/heads/"@ + b + ":refs/remotes/origin/"@ + b
}

/// What is fetched for a specification: for a pinned revision, the tag of that name and
/// every branch (the revision may name a branch or a commit); for a branch, that branch.
pub open spec fn fetch_refspecs(s: SpecificationView) -> Seq<Seq<char>> {
    (match s.revision {
        Some(r) => seq![tag_refspec(r), all_branches_refspec()],
        None => seq![],
    }) + match s.branch {
        Some(b) => seq![branch_refspec(b)],
        None => seq![],
    }
}

/// The refspecs fetched for a specification.
pub fn refspecs_for(specification: &RevisionSpecification) -> (r: Vec<String>)
    ensures
        crate::text::views(r@) == fetch_refspecs(specification@),
{
    let mut r: Vec<String> = Vec::new();
    if let Revision::Pinned { revision } = &specification.revision {
        let mut t = String::from_str("+refs/tags/");
        t.append(revision.as_str());
        t.append(":refs/tags/");
        t.append(revision.as_str());
        r.push(t);
        r.push(String::from_str("+refs/heads/*:refs/remotes/origin/*"));
    }
    if let Some(branch) = &specification.branch {
        let mut t = String::from_str("+refs/heads/");
        t.append(branch.as_str());
        t.append(":refs/remotes/origin/");
        t.append(branch.as_str());
        r.push(t);
    }
    assert(crate::text::views(r@) =~= fetch_refspecs(specification@));
    r
}

/// A refspec of a tag (after an optional leading `+`): fetching it may fail when the
/// tag does not exist.
pub open spec fn is_optional_tag(refspec: Seq<char>) -> bool {
    let rest = if refspec.len() > 0 && refspec[0] == '+' {
        refspec.drop_first()
    } else {
        refspec
    };
    is_prefix("refs/tags/"@, rest)
}

/// Whether a refspec is one of a tag.
pub fn optional_tag_refspec(refspec: &str) -> (r: bool)
    ensures
        r == is_optional_tag(refspec@),
{
    let cs = crate::text::chars_of(refspec);
    let tag = crate::text::chars_of("refs/tags/");
    if cs.len() > 0 && cs[0] == '+' {
        let r = crate::text::occurs_at_exec(cs.as_slice(), tag.as_slice(), 1);
        proof {
            let rest = refspec@.drop_first();
            if tag@.len() <= rest.len() {
                assert(rest.subrange(0, tag@.len() as int) =~= refspec@.subrange(1, 1 + tag@.len() as int));
            }
        }
        r
    } else {
        crate::text::starts_with(cs.as_slice(), tag.as_slice())
    }
}

/// A fetch that failed for a missing tag is tried again without the tags when some tag
/// and some other refspec were asked for.
pub open spec fn retry_without_tags(refspecs: Seq<Seq<char>>, message: Seq<char>) -> bool {
    &&& exists|i: int| 0 <= i < refspecs.len() && is_optional_tag(#[trigger] refspecs[i])
    &&& exists|i: int| 0 <= i < refspecs.len() && !is_optional_tag(#[trigger] refspecs[i])
    &&& crate::text::contains_seq(message, "couldn't find remote ref refs/tags/"@)
}

/// Whether a failed fetch is tried again without its tag refspecs.
pub fn should_retry_without_optional_tags(refspecs: &[String], message: &str) -> (r: bool)
    ensures
        r == retry_without_tags(crate::text::views(refspecs@), message@),
{
    let ghost rv = crate::text::views(refspecs@);
    let mut any_tag = false;
    let mut any_other = false;
    let mut i: usize = 0;
    while i < refspecs.len()
        invariant
            i <= refspecs.len(),
            rv == crate::text::views(refspecs@),
            any_tag == exists|k: int| 0 <= k < i && is_optional_tag(#[trigger] rv[k]),
            any_other == exists|k: int| 0 <= k < i && !is_optional_tag(#[trigger] rv[k]),
        decreases refspecs.len() - i,
    {
        assert(rv[i as int] == refspecs@[i as int]@);
        if optional_tag_refspec(refspecs[i].as_str()) {
            any_tag = true;
        } else {
            any_other = true;
        }
        i = i + 1;
    }
    let m = crate::text::chars_of(message);
    let needle = crate::text::chars_of("couldn't find remote ref refs/tags/");
    any_tag && any_other && crate::text::contains(m.as_slice(), needle.as_slice())
}

/// The refspecs that are not tags, in order.
pub open spec fn without_tags(refspecs: Seq<Seq<char>>) -> Seq<Seq<char>> {
    refspecs.filter(|r: Seq<char>| !is_optional_tag(r))
}

/// The refspecs that are not tags, in order.
pub fn non_tag_refspecs(refspecs: &[String]) -> (r: Vec<String>)
    ensures
        crate::text::views(r@) == without_tags(crate::text::views(refspecs@)),
{
    let ghost rv = crate::text::views(refspecs@);
    let mut r: Vec<String> = Vec::new();
    let mut i: usize = 0;
    assert(rv.take(0).filter(|x: Seq<char>| !is_optional_tag(x)) =~= Seq::<Seq<char>>::empty());
    while i < refspecs.len()
        invariant
            i <= refspecs.len(),
            rv == crate::text::views(refspecs@),
            crate::text::views(r@) == without_tags(rv.take(i as int)),
        decreases refspecs.len() - i,
    {
        let ghost before = crate::text::views(r@);
        assert(rv.take(i + 1).drop_last() =~= rv.take(i as int));
        assert(rv.take(i + 1).last() == refspecs@[i as int]@);
        reveal(Seq::filter);
        if !optional_tag_refspec(refspecs[i].as_str()) {
            r.push(refspecs[i].clone());
            assert(crate::text::views(r@) =~= before.push(refspecs@[i as int]@));
        } else {
            assert(crate::text::views(r@) =~= before);
        }
        i = i + 1;
    }
    assert(rv.take(refspecs.len() as int) =~= rv);
    r
}

/// A full commit hash: forty hexadecimal digits.
pub open spec fn is_commit_hash(s: Seq<char>) -> bool {
    s.len() == 40 && forall|i: int| 0 <= i < s.len() ==> is_hex_digit(#[trigger] s[i])
}

/// Whether a text is a full commit hash.
pub fn is_full_commit_hash(s: &str) -> (r: bool)
    ensures
        r == is_commit_hash(s@),
{
    char_count(s) == 40 && all_hex_digits(s)
}

/// The content of an error of a dependency's repository, as far as the decisions here
/// are concerned.
pub enum RepoErrorView {
    Revparse(Seq<char>, Seq<char>, GitBackendErrorView),
    BlobRead,
    Parsing(ParseErrorView),
    Other,
}

/// The view of a result of reading a descriptor.
pub open spec fn descriptor_result_view(r: Result<Descriptor, ProtoRepoError>) -> Result<
    DescriptorView,
    RepoErrorView,
> {
    match r {
        Ok(d) => Ok(d@),
        Err(ProtoRepoError::Revparse(n, c, e)) => Err(RepoErrorView::Revparse(n@, c@, e@)),
        Err(ProtoRepoError::BlobRead(_)) => Err(RepoErrorView::BlobRead),
        Err(ProtoRepoError::Parsing(e)) => Err(RepoErrorView::Parsing(e@)),
        Err(_) => Err(RepoErrorView::Other),
    }
}

/// A module without a descriptor file: its name, and no dependencies.
pub open spec fn bare_descriptor(name: Seq<char>) -> DescriptorView {
    DescriptorView { name, description: None, proto_out_dir: None, dependencies: seq![] }
}

/// The descriptor of module `name` at commit `commit`, given what reading its
/// descriptor file gave: no file (or an object not found) means no dependencies; a
/// file must be UTF-8 TOML describing a module; any other failure is reported with the
/// module and commit.
pub open spec fn descriptor_from_blob(
    name: Seq<char>,
    commit: Seq<char>,
    blob: Result<Option<Seq<u8>>, GitBackendErrorView>,
) -> Result<DescriptorView, RepoErrorView> {
    match blob {
        Ok(None) => Ok(bare_descriptor(name)),
        Err(GitBackendErrorView::NotFound(_)) => Ok(bare_descriptor(name)),
        Err(e) => Err(RepoErrorView::Revparse(name, commit, e)),
        Ok(Some(bytes)) => if !vstd::utf8::valid_utf8(bytes) {
            Err(RepoErrorView::BlobRead)
        } else {
            match descriptor_from_text(vstd::utf8::decode_utf8(bytes)) {
                Ok(d) => Ok(d),
                Err(e) => Err(RepoErrorView::Parsing(e)),
            }
        },
    }
}

/// `std::str::from_utf8`: the text some bytes encode, when they are valid UTF-8; the
/// error message otherwise.
#[verifier::external_body]
fn utf8_text(bytes: &[u8]) -> (r: Result<String, String>)
    ensures
        r is Ok <==> vstd::utf8::valid_utf8(bytes@),
        r matches Ok(s) ==> s@ == vstd::utf8::decode_utf8(bytes@),
{
    match std::str::from_utf8(bytes) {
        Ok(s) => Ok(s.to_owned()),
        Err(e) => Err(e.to_string()),
    }
}

/// The descriptor of module `name` at commit `commit`, given what reading its
/// descriptor file gave.
pub fn descriptor_at(
    name: &ModuleName,
    commit: &str,
    blob: Result<Option<Vec<u8>>, GitBackendError>,
) -> (r: Result<Descriptor, ProtoRepoError>)
    ensures
        descriptor_result_view(r) == descriptor_from_blob(name@, commit@, super::read_result_view(blob)),
{
    match blob {
        Ok(None) => Ok(bare(name)),
        Err(GitBackendError::NotFound(_)) => Ok(bare(name)),
        Err(e) => Err(ProtoRepoError::Revparse(name.clone(), String::from_str(commit), e)),
        Ok(Some(bytes)) => match utf8_text(bytes.as_slice()) {
            Err(m) => Err(ProtoRepoError::BlobRead(m)),
            Ok(text) => match Descriptor::from_toml_str(text.as_str()) {
                Ok(d) => Ok(d),
                Err(e) => Err(ProtoRepoError::Parsing(e)),
            },
        },
    }
}

fn bare(name: &ModuleName) -> (r: Descriptor)
    ensures
        r@ == bare_descriptor(name@),
{
    let r = Descriptor {
        name: name.clone(),
        description: None,
        proto_out_dir: None,
        dependencies: Vec::new(),
    };
    assert(r@.dependencies =~= Seq::<crate::model::protofetch::descriptor::DependencyView>::empty());
    r
}

/// Where the worktree of a coordinate at a commit goes: below the worktree directory,
/// at the coordinate's path, in a directory named after the commit.
pub open spec fn worktree_location(base: Seq<char>, coordinate: CoordinateView, commit_hash: Seq<char>) -> Seq<char> {
    join_path(join_path(base, coordinate_url(coordinate)), commit_hash)
}

/// An existing worktree of the commit's name may be reused only where it is the one
/// wanted: the same path, once both are made canonical; otherwise it is in the way.
pub open spec fn existing_worktree_outcome(
    name: Seq<char>,
    existing: Seq<char>,
    wanted_canonical: Seq<char>,
    wanted: Seq<char>,
) -> Option<(Seq<char>, Seq<char>, Seq<char>)> {
    if same_path(existing, wanted_canonical) {
        None
    } else {
        Some((name, existing, wanted))
    }
}

/// Checks an existing worktree against the one wanted (see
/// `existing_worktree_outcome`).
pub fn check_existing_worktree(name: &str, existing: &str, wanted_canonical: &str, wanted: &str) -> (r: Result<
    (),
    ProtoRepoError,
>)
    ensures
        match existing_worktree_outcome(name@, existing@, wanted_canonical@, wanted@) {
            None => r is Ok,
            Some((n, e, w)) => r matches Err(ProtoRepoError::WorktreeExists { name: n2, existing_path: e2, wanted_path: w2 })
                && n2@ == n && e2@ == e && w2@ == w,
        },
{
    if same_path_exec(chars_of(existing).as_slice(), chars_of(wanted_canonical).as_slice()) {
        Ok(())
    } else {
        Err(
            ProtoRepoError::WorktreeExists {
                name: String::from_str(name),
                existing_path: String::from_str(existing),
                wanted_path: String::from_str(wanted),
            },
        )
    }
}

/// A dependency's repository in the cache, with its origin url and the directory its
/// worktrees go to.
pub struct ProtoGitRepository<R> {
    repo: R,
    origin: String,
    worktrees_base: String,
}

impl<R: GitRepository> ProtoGitRepository<R> {
    /// The repository `repo`, fetched from `origin`, with worktrees under
    /// `worktrees_base`.
    pub fn new(repo: R, origin: String, worktrees_base: &str) -> (r: Self)
        ensures
            r.repository() == repo,
            r.origin() == origin@,
            r.worktrees_base() == worktrees_base@,
    {
        ProtoGitRepository { repo, origin, worktrees_base: String::from_str(worktrees_base) }
    }

    /// The underlying repository.
    pub closed spec fn repository(&self) -> R {
        self.repo
    }

    /// The origin url.
    pub closed spec fn origin(&self) -> Seq<char> {
        self.origin@
    }

    /// The worktree directory.
    pub closed spec fn worktrees_base(&self) -> Seq<char> {
        self.worktrees_base@
    }

    /// Where the worktree of a coordinate at a commit goes (see `worktree_location`).
    pub fn worktree_path(&self, coordinate: &Coordinate, commit_hash: &str) -> (r: String)
        ensures
            r@ == worktree_location(self.worktrees_base(), coordinate@, commit_hash@),
    {
        let base = join_path_exec(self.worktrees_base.as_str(), coordinate.to_path().as_str());
        join_path_exec(base.as_str(), commit_hash)
    }

    /// The underlying repository.
    pub fn repo(&self) -> (r: &R)
        ensures
            *r == self.repository(),
    {
        &self.repo
    }

    /// The worktree directory.
    pub fn worktrees_path(&self) -> (r: &str)
        ensures
            r@ == self.worktrees_base(),
    {
        self.worktrees_base.as_str()
    }

    /// Fetches from `origin` what a specification needs (see `fetch_refspecs`); the
    /// repository's error is passed on.
    pub fn fetch(&self, specification: &RevisionSpecification) -> (r: Result<(), ProtoRepoError>)
        ensures
            exists|a: Result<(), GitBackendErrorView>|
                #[trigger] self.repository().fetched("origin"@, fetch_refspecs(specification@), a) && match a {
                    Ok(()) => r is Ok,
                    Err(e) => passes_on(r, e),
                },
            r matches Err(e) ==> e is BackendError,
    {
        let refspecs = refspecs_for(specification);
        let answer = self.repo.fetch("origin", refspecs.as_slice());
        let ghost a = super::unit_result_view(answer);
        let r = match answer {
            Ok(()) => Ok(()),
            Err(e) => Err(ProtoRepoError::BackendError(e)),
        };
        assert(self.repository().fetched("origin"@, fetch_refspecs(specification@), a));
        r
    }

    /// Makes sure commit `commit_hash` is present and agrees with the specification, as
    /// `fetch_commit` does, and gives as a record the repository's answers that
    /// `commit_check` judged: whether the commit was there, whether it was there once
    /// fetched, whether it lies on the branch (or the branch was not found), whether it
    /// is the pinned revision. Unless the repository failed, the result is
    /// `commit_check`'s on these answers.
    pub fn fetch_commit_recorded(&self, specification: &RevisionSpecification, commit_hash: &str) -> (r: (
        Result<(), ProtoRepoError>,
        Ghost<Option<(bool, Option<bool>, Option<Result<bool, ()>>, Option<bool>)>>,
    ))
        ensures
            !is_commit_hash(commit_hash@) ==> (r.0 matches Err(ProtoRepoError::InvalidCommitHash { commit_hash: c })
                && c@ == commit_hash@),
            !(r.0 matches Err(ProtoRepoError::BackendError(_))) ==> (r.1@ matches Some(x) && check_outcome(
                specification@,
                commit_hash@,
                x.0,
                x.1,
                x.2,
                x.3,
                r.0,
            ) && commit_answers(self.repository(), specification@, commit_hash@, x.0, x.1, x.2, x.3)),
    {
        if !is_full_commit_hash(commit_hash) {
            return (commit_check(specification, commit_hash, false, None, None, None), Ghost(Some((false, None, None, None))));
        }
        let present = match self.repo.commit_exists(commit_hash) {
            Ok(b) => b,
            Err(e) => return (Err(ProtoRepoError::BackendError(e)), Ghost(None)),
        };
        let after = if present {
            None
        } else {
            let single = vec![String::from_str(commit_hash)];
            if self.repo.fetch("origin", single.as_slice()).is_err() {
                match self.fetch(specification) {
                    Ok(()) => {},
                    Err(e) => return (Err(e), Ghost(None)),
                }
            }
            match self.repo.commit_exists(commit_hash) {
                Ok(b) => Some(b),
                Err(e) => return (Err(ProtoRepoError::BackendError(e)), Ghost(None)),
            }
        };
        if !present && !matches!(after, Some(true)) {
            return (commit_check(specification, commit_hash, present, after, None, None), Ghost(Some((present, after, None, None))));
        }
        let pinned = match &specification.revision {
            Revision::Pinned { .. } => true,
            Revision::Arbitrary => false,
        };
        if specification.branch.is_some() || pinned {
            match self.fetch(specification) {
                Ok(()) => {},
                Err(e) => return (Err(e), Ghost(None)),
            }
        }
        let oid = GitOid::from_hex(String::from_str(commit_hash));
        let on_branch: Option<Result<bool, ()>> = match &specification.branch {
            None => None,
            Some(branch) => match self.repo.revparse_commit(branch_ref(branch.as_str()).as_str()) {
                Err(_) => Some(Err(())),
                Ok(branch_commit) => match self.repo.is_ancestor(&oid, &branch_commit) {
                    Ok(b) => Some(Ok(b)),
                    Err(e) => return (Err(ProtoRepoError::BackendError(e)), Ghost(None)),
                },
            },
        };
        if on_branch.is_some() && !matches!(on_branch, Some(Ok(true))) {
            return (commit_check(specification, commit_hash, present, after, on_branch, None), Ghost(Some((present, after, on_branch, None))));
        }
        let pinned_matches = match &specification.revision {
            Revision::Arbitrary => None,
            Revision::Pinned { revision } => match self.repo.revparse_commit(revision.as_str()) {
                Ok(c) => Some(oid.same(&c)),
                Err(e) => return (Err(ProtoRepoError::BackendError(e)), Ghost(None)),
            },
        };
        (commit_check(specification, commit_hash, present, after, on_branch, pinned_matches), Ghost(Some((present, after, on_branch, pinned_matches))))
    }


    /// Makes sure commit `commit_hash` is present and agrees with the specification:
    /// it must be a full hash; it is fetched alone, else with the specification's
    /// refspecs; it must lie on the specification's branch, and be its pinned
    /// revision. The repository's answers to the questions of `commit_answers` are
    /// judged by `commit_check`; its own errors are passed on.
    pub fn fetch_commit(&self, specification: &RevisionSpecification, commit_hash: &str) -> (r:
        Result<(), ProtoRepoError>)
        ensures
            !is_commit_hash(commit_hash@) ==> (r matches Err(
                ProtoRepoError::InvalidCommitHash { commit_hash: c },
            ) && c@ == commit_hash@),
            r matches Err(ProtoRepoError::InvalidCommitHash { .. }) ==> !is_commit_hash(commit_hash@),
            r is Ok ==> is_commit_hash(commit_hash@),
            r matches Err(ProtoRepoError::CommitNotFound { commit_hash: c }) ==> c@
                == commit_hash@,
            r matches Err(ProtoRepoError::BranchNotFound { branch }) ==> specification@.branch
                == Some(branch@),
            r matches Err(ProtoRepoError::RevisionNotOnBranch { revision, branch }) ==> revision@
                == commit_hash@ && specification@.branch == Some(branch@),
            r matches Err(ProtoRepoError::PreciseRevisionMismatch { commit_hash: c, revision })
                ==> c@ == commit_hash@ && specification@.revision == Some(revision@),
            !(r matches Err(ProtoRepoError::BackendError(_))) ==> exists|
                present: bool,
                after: Option<bool>,
                on_branch: Option<Result<bool, ()>>,
                pinned_matches: Option<bool>,
            |
                #![trigger commit_answers(self.repository(), specification@, commit_hash@, present, after, on_branch, pinned_matches)]
                commit_answers(self.repository(), specification@, commit_hash@, present, after, on_branch, pinned_matches)
                    && check_outcome(specification@, commit_hash@, present, after, on_branch, pinned_matches, r),
    {
        let (r, answers) = self.fetch_commit_recorded(specification, commit_hash);
        proof {
            if !(r matches Err(ProtoRepoError::BackendError(_))) {
                let x = answers@->0;
                assert(check_outcome(specification@, commit_hash@, x.0, x.1, x.2, x.3, r));
                assert(commit_answers(self.repository(), specification@, commit_hash@, x.0, x.1, x.2, x.3));
            }
        }
        r
    }

    /// The descriptor of module `name` at commit `commit_hash` (see
    /// `descriptor_from_blob`).
    pub fn extract_descriptor(&self, name: &ModuleName, commit_hash: &str) -> (r: Result<
        Descriptor,
        ProtoRepoError,
    >)
        ensures
            exists|blob: Result<Option<Seq<u8>>, GitBackendErrorView>|
                #[trigger] self.repository().blob_read(commit_hash@, "protofetch.toml"@, blob)
                    && descriptor_result_view(r) == descriptor_from_blob(name@, commit_hash@, blob),
    {
        let (r, read) = self.extract_descriptor_recorded(name, commit_hash);
        assert(self.repository().blob_read(commit_hash@, "protofetch.toml"@, read@));
        r
    }

    /// The descriptor of module `name` at commit `commit_hash`, as `extract_descriptor`
    /// finds it, with as a record what reading `protofetch.toml` there gave: the result
    /// is `descriptor_from_blob` of it.
    pub fn extract_descriptor_recorded(&self, name: &ModuleName, commit_hash: &str) -> (r: (
        Result<Descriptor, ProtoRepoError>,
        Ghost<Result<Option<Seq<u8>>, GitBackendErrorView>>,
    ))
        ensures
            self.repository().blob_read(commit_hash@, "protofetch.toml"@, r.1@),
            descriptor_result_view(r.0) == descriptor_from_blob(name@, commit_hash@, r.1@),
    {
        let blob = self.repo.read_blob(commit_hash, "protofetch.toml");
        let ghost bv = super::read_result_view(blob);
        let r = descriptor_at(name, commit_hash, blob);
        (r, Ghost(bv))
    }

    /// The commit a specification resolves to, as `resolve_commit_hash` finds it, with
    /// as a record the repository's answers that `chosen_commit` judged: whether the
    /// branch's head was found, the commit looked up, and whether the pinned revision
    /// lies on the branch. Unless the repository failed, the result is `chosen_commit`'s
    /// on these answers.
    pub fn resolve_commit_hash_recorded(&self, specification: &RevisionSpecification) -> (r: (
        Result<String, ProtoRepoError>,
        Ghost<Option<(bool, Seq<char>, bool)>>,
    ))
        ensures
            !(r.0 matches Err(ProtoRepoError::BackendError(_))) ==> (r.1@ matches Some(x) && chosen_outcome(
                specification@,
                x.0,
                x.1,
                x.2,
                r.0,
            )),
            resolution_answered(self.repository(), specification@, r.0),
    {
        let none = GitOid::from_hex(String::new());
        match (&specification.branch, &specification.revision) {
            (None, Revision::Arbitrary) => {
                let head = self.repo.revparse_commit(default_head_ref().as_str());
                let ghost a = super::oid_result_view(head);
                let r = match head {
                    Ok(c) => (chosen_commit(specification, true, &c, true), Ghost(Some((true, c@, true)))),
                    Err(e) => (Err(ProtoRepoError::BackendError(e)), Ghost(None)),
                };
                assert(self.repository().revparsed("origin/HEAD"@, a) && looked_up(a, r.0));
                r
            },
            (None, Revision::Pinned { revision }) => {
                let found = self.repo.revparse_commit(revision.as_str());
                let ghost a = super::oid_result_view(found);
                let r = match found {
                    Ok(c) => (chosen_commit(specification, true, &c, true), Ghost(Some((true, c@, true)))),
                    Err(e) => (Err(ProtoRepoError::BackendError(e)), Ghost(None)),
                };
                assert(self.repository().revparsed(revision@, a) && looked_up(a, r.0));
                r
            },
            (Some(branch), Revision::Arbitrary) => {
                let head = self.repo.revparse_commit(branch_ref(branch.as_str()).as_str());
                let ghost a = super::oid_result_view(head);
                let r = match head {
                    Ok(c) => (chosen_commit(specification, true, &c, true), Ghost(Some((true, c@, true)))),
                    Err(_) => (chosen_commit(specification, false, &none, true), Ghost(Some((false, none@, true)))),
                };
                assert(self.repository().revparsed("origin/"@ + branch@, a));
                r
            },
            (Some(branch), Revision::Pinned { revision }) => {
                let head = self.repo.revparse_commit(branch_ref(branch.as_str()).as_str());
                let ghost a = super::oid_result_view(head);
                assert(self.repository().revparsed("origin/"@ + branch@, a));
                let branch_commit = match head {
                    Ok(c) => {
                        assert(a == Ok::<Seq<char>, GitBackendErrorView>(c@));
                        c
                    },
                    Err(_) => return (chosen_commit(specification, false, &none, true), Ghost(Some((false, none@, true)))),
                };
                let found = self.repo.revparse_commit(revision.as_str());
                let ghost a2 = super::oid_result_view(found);
                assert(self.repository().revparsed(revision@, a2));
                let revision_commit = match found {
                    Ok(c) => {
                        assert(a2 == Ok::<Seq<char>, GitBackendErrorView>(c@));
                        c
                    },
                    Err(e) => {
                        let r = Err(ProtoRepoError::BackendError(e));
                        assert(a2 == Err::<Seq<char>, GitBackendErrorView>(e@));
                        assert(passes_on(r, e@));
                        assert(pinned_on_branch(self.repository(), revision@, branch@, branch_commit@, r));
                        return (r, Ghost(None));
                    },
                };
                let ancestry = self.repo.is_ancestor(&revision_commit, &branch_commit);
                let ghost o = super::bool_result_view(ancestry);
                assert(self.repository().ancestry(revision_commit@, branch_commit@, o));
                let r = match ancestry {
                    Ok(b) => {
                        assert(o == Ok::<bool, GitBackendErrorView>(b));
                        (chosen_commit(specification, true, &revision_commit, b), Ghost(Some((true, revision_commit@, b))))
                    },
                    Err(e) => {
                        assert(o == Err::<bool, GitBackendErrorView>(e@));
                        (Err(ProtoRepoError::BackendError(e)), Ghost(None))
                    },
                };
                assert(pinned_on_branch(self.repository(), revision@, branch@, branch_commit@, r.0));
                r
            },
        }
    }

    /// The commit a specification resolves to: the remote's default head; the pinned
    /// revision; the head of the branch; or the pinned revision, which must lie on the
    /// branch. The references looked up are those of `resolution_answered`; the
    /// repository's answers are judged by `chosen_commit`; its own errors are passed
    /// on.
    pub fn resolve_commit_hash(&self, specification: &RevisionSpecification) -> (r: Result<
        String,
        ProtoRepoError,
    >)
        ensures
            r matches Err(ProtoRepoError::BranchNotFound { branch }) ==> specification@.branch
                == Some(branch@),
            r matches Err(ProtoRepoError::RevisionNotOnBranch { revision, branch }) ==> specification@.branch
                == Some(branch@) && specification@.revision == Some(revision@),
            r matches Err(e) ==> (e is BackendError || e is BranchNotFound || e is RevisionNotOnBranch),
            resolution_answered(self.repository(), specification@, r),
    {
        let (r, answers) = self.resolve_commit_hash_recorded(specification);
        proof {
            if !(r matches Err(ProtoRepoError::BackendError(_))) {
                let x = answers@->0;
                assert(chosen_outcome(specification@, x.0, x.1, x.2, r));
            }
        }
        r
    }

    /// Resolves a dependency in this repository: to the commit given, which is fetched
    /// and checked against the specification (see `fetch_commit`), or else to the
    /// commit the specification names once fetched (see `resolve_commit_hash`); then
    /// reads the module's descriptor at that commit (see `extract_descriptor`).
    pub fn resolve_module(
        &self,
        specification: &RevisionSpecification,
        commit_hash: Option<&str>,
        name: &ModuleName,
    ) -> (r: Result<CommitAndDescriptor, ProtoRepoError>)
        ensures
            match commit_hash {
                Some(c) => {
                    &&& !is_commit_hash(c@) ==> (r matches Err(ProtoRepoError::InvalidCommitHash { commit_hash: x })
                        && x@ == c@)
                    &&& r matches Ok(a) ==> a.commit_hash@ == c@ && is_commit_hash(c@)
                },
                None => true,
            },
            r matches Err(ProtoRepoError::InvalidCommitHash { .. }) ==> (commit_hash matches Some(c) && !is_commit_hash(c@)),
            r matches Ok(a) ==> (commit_hash is None ==> resolution_answered(
                self.repository(),
                specification@,
                Ok::<String, ProtoRepoError>(a.commit_hash),
            )),
            r matches Ok(a) ==> exists|blob: Result<Option<Seq<u8>>, GitBackendErrorView>|
                #[trigger] self.repository().blob_read(a.commit_hash@, "protofetch.toml"@, blob)
                    && descriptor_from_blob(name@, a.commit_hash@, blob) == Ok::<DescriptorView, RepoErrorView>(
                    a.descriptor@,
                ),
    {
        let commit = match commit_hash {
            Some(c) => match self.fetch_commit(specification, c) {
                Ok(()) => String::from_str(c),
                Err(e) => return Err(e),
            },
            None => {
                match self.fetch(specification) {
                    Ok(()) => {},
                    Err(e) => return Err(e),
                }
                match self.resolve_commit_hash(specification) {
                    Ok(c) => c,
                    Err(e) => return Err(e),
                }
            },
        };
        let read = self.extract_descriptor(name, commit.as_str());
        match read {
            Ok(descriptor) => {
                let ghost blob = choose|blob: Result<Option<Seq<u8>>, GitBackendErrorView>|
                    #[trigger] self.repository().blob_read(commit@, "protofetch.toml"@, blob)
                        && descriptor_result_view(read) == descriptor_from_blob(name@, commit@, blob);
                let answer = CommitAndDescriptor { commit_hash: commit, descriptor };
                assert(descriptor_from_blob(name@, answer.commit_hash@, blob) == Ok::<DescriptorView, RepoErrorView>(
                    answer.descriptor@,
                ));
                Ok(answer)
            },
            Err(e) => {
                proof {
                    let blob = choose|blob: Result<Option<Seq<u8>>, GitBackendErrorView>|
                        #[trigger] self.repository().blob_read(commit@, "protofetch.toml"@, blob)
                            && descriptor_result_view(read) == descriptor_from_blob(name@, commit@, blob);
                    assert(!(descriptor_from_blob(name@, commit@, blob) matches Err(RepoErrorView::Other)));
                }
                Err(e)
            },
        }
    }
}

} // verus!
