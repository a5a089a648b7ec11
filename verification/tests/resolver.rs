
use protofetch::model::protofetch::{
    Coordinate, Descriptor, LockFile, LockedCoordinate, LockedDependency, ModuleName,
    RevisionSpecification,
};
use protofetch::resolver::lock::{check_answer, LockPlan};
use protofetch::resolver::{CommitAndDescriptor, LockFileModuleResolver, ModuleResolver};

struct FakeResolver;

impl ModuleResolver for FakeResolver {
    fn resolve(
        &self,
        _: &Coordinate,
        _: &RevisionSpecification,
        commit_hash: Option<&str>,
        name: &ModuleName,
    ) -> Result<CommitAndDescriptor, String> {
        Ok(CommitAndDescriptor {
            commit_hash: commit_hash.unwrap_or("fresh").to_owned(),
            descriptor: Descriptor {
                name: name.clone(),
                description: None,
                proto_out_dir: None,
                dependencies: Vec::new(),
            },
        })
    }
}

fn coordinate() -> Coordinate {
    Coordinate::from_url("example.com/org/repo").unwrap()
}

fn lock_file() -> LockFile {
    LockFile {
        dependencies: vec![LockedDependency {
            name: ModuleName::from_str("repo"),
            coordinate: LockedCoordinate::from_coordinate(&coordinate()),
            specification: RevisionSpecification::default(),
            commit_hash: "locked".to_owned(),
        }],
    }
}

#[test]
fn unselected_dependency_uses_lock_file() {
    let resolver = LockFileModuleResolver::new_selected(
        FakeResolver,
        lock_file(),
        vec![("other".to_owned(), None)],
    );
    let resolved = resolver
        .resolve(&coordinate(), &RevisionSpecification::default(), None, &ModuleName::from_str("repo"))
        .unwrap();
    assert_eq!(resolved.commit_hash, "locked");
}

#[test]
fn selected_dependency_bypasses_lock_file() {
    let resolver = LockFileModuleResolver::new_selected(
        FakeResolver,
        lock_file(),
        vec![("repo".to_owned(), None)],
    );
    let resolved = resolver
        .resolve(&coordinate(), &RevisionSpecification::default(), None, &ModuleName::from_str("repo"))
        .unwrap();
    assert_eq!(resolved.commit_hash, "fresh");
}

#[test]
fn selected_dependency_uses_precise_commit() {
    let resolver = LockFileModuleResolver::new_selected(
        FakeResolver,
        lock_file(),
        vec![("repo".to_owned(), Some("precise".to_owned()))],
    );
    let resolved = resolver
        .resolve(&coordinate(), &RevisionSpecification::default(), None, &ModuleName::from_str("repo"))
        .unwrap();
    assert_eq!(resolved.commit_hash, "precise");
}

#[test]
fn locked_resolver_refuses_unrecorded_dependencies() {
    let resolver = LockFileModuleResolver::new(FakeResolver, lock_file(), true);
    let other = Coordinate::from_url("example.com/org/other").unwrap();
    let error = resolver
        .resolve(&other, &RevisionSpecification::default(), None, &ModuleName::from_str("other"))
        .err()
        .unwrap();
    assert_eq!(error, "No entry for example.com/org/other * in the lock file");
}

#[test]
fn unlocked_resolver_resolves_unrecorded_dependencies() {
    let resolver = LockFileModuleResolver::new(FakeResolver, lock_file(), false);
    let other = Coordinate::from_url("example.com/org/other").unwrap();
    let resolved = resolver
        .resolve(&other, &RevisionSpecification::default(), None, &ModuleName::from_str("other"))
        .unwrap();
    assert_eq!(resolved.commit_hash, "fresh");
}

#[test]
fn recorded_dependency_is_asked_at_its_commit() {
    let resolver = LockFileModuleResolver::new(FakeResolver, lock_file(), true);
    match resolver.plan(&coordinate(), &RevisionSpecification::default(), None, &ModuleName::from_str("repo")) {
        LockPlan::Delegate { commit_hash, expected } => {
            assert_eq!(commit_hash.as_deref(), Some("locked"));
            assert_eq!(expected.as_deref(), Some("locked"));
        }
        LockPlan::Missing(m) => panic!("unexpected refusal: {m}"),
    }
}

#[test]
fn changed_commit_is_refused() {
    let answer = Ok(CommitAndDescriptor {
        commit_hash: "other".to_owned(),
        descriptor: Descriptor {
            name: ModuleName::from_str("repo"),
            description: None,
            proto_out_dir: None,
            dependencies: Vec::new(),
        },
    });
    let checked = check_answer(&coordinate(), &RevisionSpecification::default(), Some("locked"), answer);
    assert_eq!(
        checked.err().unwrap(),
        "Commit hash of example.com/org/repo * changed: the lock file specifies locked, but the actual commit hash is other"
    );
}

#[test]
fn locked_dependency_asks_for_the_locked_commit() {
    let resolver = LockFileModuleResolver::new(FakeResolver, lock_file(), true);
    let answer = resolver.resolve(
        &coordinate(),
        &RevisionSpecification::default(),
        None,
        &ModuleName::from_str("repo"),
    );
    assert_eq!(answer.unwrap().commit_hash, "locked");
}

#[test]
fn a_name_selected_twice_takes_the_last_update() {
    let resolver = LockFileModuleResolver::new_selected(
        FakeResolver,
        lock_file(),
        vec![("repo".to_owned(), None), ("repo".to_owned(), Some("precise".to_owned()))],
    );
    let resolved = resolver
        .resolve(&coordinate(), &RevisionSpecification::default(), None, &ModuleName::from_str("repo"))
        .unwrap();
    assert_eq!(resolved.commit_hash, "precise");
}
