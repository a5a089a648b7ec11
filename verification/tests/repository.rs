use protofetch::git::repository::{
    branch_ref, check_existing_worktree, chosen_commit, commit_check, default_head_ref, ProtoGitRepository,
    ProtoRepoError,
};
use protofetch::git::{GitBackendError, GitOid, GitRepository, WorktreeResult};
use protofetch::model::protofetch::{Coordinate, ModuleName, Revision, RevisionSpecification};

const HEAD: &str = "1111111111111111111111111111111111111111";
const TAGGED: &str = "2222222222222222222222222222222222222222";
const SIDE: &str = "3333333333333333333333333333333333333333";

/// A repository whose branch `main` has the commits HEAD and TAGGED (tag `1.0.0`), and
/// whose commit SIDE is on no branch; TAGGED has a descriptor.
struct FakeRepo;

impl GitRepository for FakeRepo {
    fn remote_add(&self, _: &str, _: &str) -> Result<(), GitBackendError> {
        Ok(())
    }
    fn remote_get_url(&self, _: &str) -> Result<Option<String>, GitBackendError> {
        Ok(None)
    }
    fn remote_set_url(&self, _: &str, _: &str) -> Result<(), GitBackendError> {
        Ok(())
    }
    fn fetch(&self, _: &str, _: &[String]) -> Result<(), GitBackendError> {
        Ok(())
    }
    fn commit_exists(&self, oid: &str) -> Result<bool, GitBackendError> {
        Ok(oid == HEAD || oid == TAGGED || oid == SIDE)
    }
    fn revparse_commit(&self, spec: &str) -> Result<GitOid, GitBackendError> {
        match spec {
            "origin/HEAD" | "origin/main" => Ok(GitOid::from_hex(HEAD.to_owned())),
            "1.0.0" => Ok(GitOid::from_hex(TAGGED.to_owned())),
            s if s == HEAD || s == TAGGED || s == SIDE => Ok(GitOid::from_hex(s.to_owned())),
            _ => Err(GitBackendError::InvalidRef(spec.to_owned())),
        }
    }
    fn read_blob(&self, commit: &str, _: &str) -> Result<Option<Vec<u8>>, GitBackendError> {
        if commit == TAGGED {
            Ok(Some(b"name = \"dep\"\n[child]\nurl = \"example.com/org/child\"\nrevision = \"2.0.0\"\n".to_vec()))
        } else {
            Ok(None)
        }
    }
    fn is_ancestor(&self, ancestor: &GitOid, descendant: &GitOid) -> Result<bool, GitBackendError> {
        Ok(descendant.as_str() == HEAD && (ancestor.as_str() == HEAD || ancestor.as_str() == TAGGED))
    }
    fn create_worktree(&self, _: &str, _: &str, _: &str) -> Result<WorktreeResult, GitBackendError> {
        Ok(WorktreeResult::Created)
    }
    fn reset(&self, _: &str) -> Result<(), GitBackendError> {
        Ok(())
    }
}

fn repo() -> ProtoGitRepository<FakeRepo> {
    ProtoGitRepository::new(FakeRepo, "git@example.com:org/dep.git".to_owned(), "/cache/dependencies")
}

fn spec(revision: Option<&str>, branch: Option<&str>) -> RevisionSpecification {
    RevisionSpecification {
        revision: match revision {
            Some(r) => Revision::pinned(r.to_owned()),
            None => Revision::Arbitrary,
        },
        branch: branch.map(|b| b.to_owned()),
    }
}

#[test]
fn resolving_a_tag_reads_its_descriptor() {
    let name = ModuleName::from_str("dep");
    let answer = repo().resolve_module(&spec(Some("1.0.0"), None), None, &name).unwrap();
    assert_eq!(answer.commit_hash, TAGGED);
    assert_eq!(answer.descriptor.name.as_str(), "dep");
    assert_eq!(answer.descriptor.dependencies.len(), 1);
    assert_eq!(answer.descriptor.dependencies[0].name.as_str(), "child");
}

#[test]
fn a_module_without_descriptor_has_no_dependencies() {
    let name = ModuleName::from_str("dep");
    let answer = repo().resolve_module(&spec(None, Some("main")), None, &name).unwrap();
    assert_eq!(answer.commit_hash, HEAD);
    assert_eq!(answer.descriptor.name.as_str(), "dep");
    assert!(answer.descriptor.dependencies.is_empty());
}

#[test]
fn given_commits_are_checked() {
    let name = ModuleName::from_str("dep");
    let r = repo().resolve_module(&spec(None, None), Some("not-a-commit"), &name);
    assert!(matches!(r, Err(ProtoRepoError::InvalidCommitHash { commit_hash }) if commit_hash == "not-a-commit"));
    let r = repo().resolve_module(&spec(None, Some("main")), Some(SIDE), &name);
    assert!(matches!(r, Err(ProtoRepoError::RevisionNotOnBranch { revision, branch }) if revision == SIDE && branch == "main"));
    let r = repo().resolve_module(&spec(Some("1.0.0"), None), Some(HEAD), &name);
    assert!(matches!(r, Err(ProtoRepoError::PreciseRevisionMismatch { commit_hash, revision }) if commit_hash == HEAD && revision == "1.0.0"));
    let r = repo().resolve_module(&spec(None, None), Some("4444444444444444444444444444444444444444"), &name);
    assert!(matches!(r, Err(ProtoRepoError::CommitNotFound { .. })));
    let answer = repo().resolve_module(&spec(Some("1.0.0"), Some("main")), Some(TAGGED), &name).unwrap();
    assert_eq!(answer.commit_hash, TAGGED);
}

#[test]
fn a_revision_off_the_branch_is_refused() {
    let r = repo().resolve_commit_hash(&spec(Some(SIDE), Some("main")));
    assert!(matches!(r, Err(ProtoRepoError::RevisionNotOnBranch { .. })));
    let r = repo().resolve_commit_hash(&spec(None, Some("feature")));
    assert!(matches!(r, Err(ProtoRepoError::BranchNotFound { branch }) if branch == "feature"));
}

#[test]
fn worktrees_go_under_the_coordinate_and_commit() {
    let coordinate = Coordinate::from_url("example.com/org/dep").unwrap();
    assert_eq!(repo().worktree_path(&coordinate, HEAD), format!("/cache/dependencies/example.com/org/dep/{}", HEAD));
    assert_eq!(repo().worktrees_path(), "/cache/dependencies");
}

#[test]
fn an_existing_worktree_elsewhere_is_in_the_way() {
    assert!(check_existing_worktree("abc", "/cache/w/abc", "/cache/w/abc/", "w/abc").is_ok());
    let r = check_existing_worktree("abc", "/other/abc", "/cache/w/abc", "w/abc");
    assert!(matches!(r, Err(ProtoRepoError::WorktreeExists { name, existing_path, wanted_path })
        if name == "abc" && existing_path == "/other/abc" && wanted_path == "w/abc"));
}

#[test]
fn commit_check_judges_the_answers_in_order() {
    let hash = "0123456789abcdef0123456789abcdef01234567";
    let on_main = RevisionSpecification { revision: Revision::pinned("v1".to_string()), branch: Some("main".to_string()) };
    assert!(matches!(commit_check(&on_main, "abc", true, None, None, None), Err(ProtoRepoError::InvalidCommitHash { .. })));
    assert!(matches!(commit_check(&on_main, hash, false, Some(false), None, None), Err(ProtoRepoError::CommitNotFound { commit_hash }) if commit_hash == hash));
    assert!(matches!(commit_check(&on_main, hash, true, None, Some(Err(())), None), Err(ProtoRepoError::BranchNotFound { branch }) if branch == "main"));
    assert!(matches!(commit_check(&on_main, hash, false, Some(true), Some(Ok(false)), None), Err(ProtoRepoError::RevisionNotOnBranch { revision, branch }) if revision == hash && branch == "main"));
    assert!(matches!(commit_check(&on_main, hash, true, None, Some(Ok(true)), Some(false)), Err(ProtoRepoError::PreciseRevisionMismatch { revision, .. }) if revision == "v1"));
    assert!(commit_check(&on_main, hash, true, None, Some(Ok(true)), Some(true)).is_ok());
    let plain = RevisionSpecification { revision: Revision::Arbitrary, branch: None };
    assert!(commit_check(&plain, hash, true, None, None, None).is_ok());
}

#[test]
fn chosen_commit_for_each_case() {
    let c = GitOid::from_hex("c1".to_string());
    let plain = RevisionSpecification { revision: Revision::Arbitrary, branch: None };
    assert_eq!(chosen_commit(&plain, true, &c, false).unwrap(), "c1");
    let branch = RevisionSpecification { revision: Revision::Arbitrary, branch: Some("dev".to_string()) };
    assert!(matches!(chosen_commit(&branch, false, &c, true), Err(ProtoRepoError::BranchNotFound { branch }) if branch == "dev"));
    assert_eq!(chosen_commit(&branch, true, &c, false).unwrap(), "c1");
    let both = RevisionSpecification { revision: Revision::pinned("v2".to_string()), branch: Some("dev".to_string()) };
    assert!(matches!(chosen_commit(&both, true, &c, false), Err(ProtoRepoError::RevisionNotOnBranch { revision, branch }) if revision == "v2" && branch == "dev"));
    assert_eq!(chosen_commit(&both, true, &c, true).unwrap(), "c1");
    assert_eq!(branch_ref("dev"), "origin/dev");
    assert_eq!(default_head_ref(), "origin/HEAD");
}

#[test]
fn recorded_checks_agree_with_the_plain_ones() {
    let (r, _) = repo().fetch_commit_recorded(&spec(None, Some("main")), SIDE);
    assert!(matches!(r, Err(ProtoRepoError::RevisionNotOnBranch { revision, branch }) if revision == SIDE && branch == "main"));
    let (c, _) = repo().resolve_commit_hash_recorded(&spec(None, Some("main")));
    assert_eq!(c.unwrap(), HEAD);
}

#[test]
fn recorded_descriptor_read_agrees_with_the_plain_one() {
    let name = ModuleName::from_str("dep");
    let (r, _) = repo().extract_descriptor_recorded(&name, HEAD);
    let plain = repo().extract_descriptor(&name, HEAD);
    assert_eq!(r.unwrap().name.as_str(), plain.unwrap().name.as_str());
}

/// A repository that records what it is asked and answers from the same history as
/// `FakeRepo`.
struct RecordingRepo {
    asked: std::cell::RefCell<Vec<String>>,
}

impl RecordingRepo {
    fn new() -> RecordingRepo {
        RecordingRepo { asked: std::cell::RefCell::new(Vec::new()) }
    }
}

impl GitRepository for RecordingRepo {
    fn remote_add(&self, _: &str, _: &str) -> Result<(), GitBackendError> {
        Ok(())
    }
    fn remote_get_url(&self, _: &str) -> Result<Option<String>, GitBackendError> {
        Ok(None)
    }
    fn remote_set_url(&self, _: &str, _: &str) -> Result<(), GitBackendError> {
        Ok(())
    }
    fn fetch(&self, remote: &str, refspecs: &[String]) -> Result<(), GitBackendError> {
        self.asked.borrow_mut().push(format!("fetch {} {}", remote, refspecs.join(" ")));
        Ok(())
    }
    fn commit_exists(&self, oid: &str) -> Result<bool, GitBackendError> {
        FakeRepo.commit_exists(oid)
    }
    fn revparse_commit(&self, spec: &str) -> Result<GitOid, GitBackendError> {
        self.asked.borrow_mut().push(format!("revparse {}", spec));
        FakeRepo.revparse_commit(spec)
    }
    fn read_blob(&self, commit: &str, path: &str) -> Result<Option<Vec<u8>>, GitBackendError> {
        self.asked.borrow_mut().push(format!("read {} {}", commit, path));
        FakeRepo.read_blob(commit, path)
    }
    fn is_ancestor(&self, ancestor: &GitOid, descendant: &GitOid) -> Result<bool, GitBackendError> {
        self.asked.borrow_mut().push(format!("ancestor {} {}", ancestor.as_str(), descendant.as_str()));
        FakeRepo.is_ancestor(ancestor, descendant)
    }
    fn create_worktree(&self, _: &str, _: &str, _: &str) -> Result<WorktreeResult, GitBackendError> {
        Ok(WorktreeResult::Created)
    }
    fn reset(&self, _: &str) -> Result<(), GitBackendError> {
        Ok(())
    }
}

fn recording() -> ProtoGitRepository<RecordingRepo> {
    ProtoGitRepository::new(RecordingRepo::new(), "git@example.com:org/dep.git".to_owned(), "/cache/dependencies")
}

#[test]
fn fetch_asks_origin_for_the_specification_refspecs() {
    let r = recording();
    r.fetch(&spec(Some("v1"), Some("main"))).unwrap();
    r.fetch(&spec(None, None)).unwrap();
    assert_eq!(
        *r.repo().asked.borrow(),
        vec![
            "fetch origin +refs/tags/v1:refs/tags/v1 +refs/heads/*:refs/remotes/origin/* +refs/heads/main:refs/remotes/origin/main".to_owned(),
            "fetch origin ".to_owned(),
        ]
    );
}

#[test]
fn resolution_looks_up_the_reference_of_each_case() {
    let r = recording();
    assert_eq!(r.resolve_commit_hash(&spec(None, None)).unwrap(), HEAD);
    assert_eq!(r.resolve_commit_hash(&spec(Some("1.0.0"), None)).unwrap(), TAGGED);
    assert_eq!(r.resolve_commit_hash(&spec(None, Some("main"))).unwrap(), HEAD);
    assert_eq!(r.resolve_commit_hash(&spec(Some("1.0.0"), Some("main"))).unwrap(), TAGGED);
    assert_eq!(
        *r.repo().asked.borrow(),
        vec![
            "revparse origin/HEAD".to_owned(),
            "revparse 1.0.0".to_owned(),
            "revparse origin/main".to_owned(),
            "revparse origin/main".to_owned(),
            "revparse 1.0.0".to_owned(),
            format!("ancestor {} {}", TAGGED, HEAD),
        ]
    );
}

#[test]
fn the_descriptor_is_read_from_protofetch_toml_at_the_commit() {
    let r = recording();
    let d = r.extract_descriptor(&ModuleName::from_str("dep"), TAGGED).unwrap();
    assert_eq!(d.name.as_str(), "dep");
    assert_eq!(*r.repo().asked.borrow(), vec![format!("read {} protofetch.toml", TAGGED)]);
}
