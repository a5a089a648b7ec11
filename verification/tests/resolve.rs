use protofetch::engine::{lock, parallel_resolve, resolve, ResolvedDependency, ResolvedModule};
use protofetch::model::protofetch::{
    AllowPolicies, Coordinate, Dependency, Descriptor, FilePolicy, LockedCoordinate,
    LockedDependency, ModuleName, Revision, RevisionSpecification, Rules,
};
use protofetch::resolver::{CommitAndDescriptor, ModuleResolver};

struct FakeResolver {
    entries: Vec<(Coordinate, RevisionSpecification, CommitAndDescriptor)>,
}

impl ModuleResolver for FakeResolver {
    fn resolve(
        &self,
        coordinate: &Coordinate,
        specification: &RevisionSpecification,
        _: Option<&str>,
        _: &ModuleName,
    ) -> Result<CommitAndDescriptor, String> {
        for (c, s, a) in &self.entries {
            if c == coordinate && s == specification {
                return Ok(a.clone());
            }
        }
        Err(format!("Coordinate not found: {}", coordinate.display()))
    }
}

fn coord(name: &str) -> Coordinate {
    Coordinate::from_url(&format!("example.com/org/{}", name)).unwrap()
}

fn spec(revision: &str) -> RevisionSpecification {
    RevisionSpecification { revision: Revision::pinned(revision.to_owned()), branch: None }
}

fn dep(name: &str, revision: &str) -> Dependency {
    Dependency {
        name: ModuleName::from_str(name),
        coordinate: coord(name),
        specification: spec(revision),
        rules: Rules::default(),
    }
}

fn resolver_with(deps: &[(&str, &str, &str, Vec<Dependency>)]) -> FakeResolver {
    FakeResolver {
        entries: deps
            .iter()
            .map(|(name, rev, hash, children)| {
                (
                    coord(name),
                    spec(rev),
                    CommitAndDescriptor {
                        commit_hash: hash.to_string(),
                        descriptor: Descriptor {
                            name: ModuleName::from_str(name),
                            description: None,
                            proto_out_dir: None,
                            dependencies: children.clone(),
                        },
                    },
                )
            })
            .collect(),
    }
}

fn root(deps: Vec<Dependency>) -> Descriptor {
    Descriptor { name: ModuleName::from_str("root"), description: None, proto_out_dir: None, dependencies: deps }
}

fn locked(name: &str, revision: &str, hash: &str) -> LockedDependency {
    LockedDependency {
        name: ModuleName::from_str(name),
        coordinate: LockedCoordinate { url: format!("example.com/org/{}", name), protocol: None },
        specification: spec(revision),
        commit_hash: hash.to_owned(),
    }
}

fn resolved_dep(name: &str, rules: Rules) -> ResolvedDependency {
    ResolvedDependency { name: ModuleName::from_str(name), rules }
}

fn module<'a>(modules: &'a [ResolvedModule], name: &str) -> &'a ResolvedModule {
    modules.iter().find(|m| m.name == ModuleName::from_str(name)).expect("module must be resolved")
}

fn rules(allow: &str) -> Rules {
    Rules {
        allow_policies: AllowPolicies::new(vec![FilePolicy::try_from_str(allow).unwrap()]),
        ..Default::default()
    }
}

fn with_policies(d: Dependency, allow: &str) -> Dependency {
    Dependency { rules: rules(allow), ..d }
}

#[test]
fn resolve_transitive() {
    let resolver = resolver_with(&[
        ("foo", "1.0.0", "c1", vec![dep("bar", "2.0.0")]),
        ("bar", "2.0.0", "c2", Vec::new()),
    ]);
    let lock_file = lock(&root(vec![dep("foo", "1.0.0")]), &resolver).0.unwrap();
    assert_eq!(
        lock_file.dependencies,
        vec![locked("bar", "2.0.0", "c2"), locked("foo", "1.0.0", "c1")]
    );
}

#[test]
fn resolve_transitive_root_priority() {
    let resolver = resolver_with(&[
        ("foo", "1.0.0", "c1", vec![dep("bar", "2.0.0")]),
        ("bar", "1.0.0", "c3", Vec::new()),
        ("bar", "2.0.0", "c2", Vec::new()),
    ]);
    let lock_file =
        lock(&root(vec![dep("foo", "1.0.0"), dep("bar", "1.0.0")]), &resolver).0.unwrap();
    assert_eq!(
        lock_file.dependencies,
        vec![locked("bar", "1.0.0", "c3"), locked("foo", "1.0.0", "c1")]
    );
}

#[test]
fn matches_sequential_diamond_graph() {
    let resolver = resolver_with(&[
        ("foo", "1.0.0", "c1", vec![dep("bar", "2.0.0")]),
        ("bar", "2.0.0", "c2", Vec::new()),
    ]);
    let (resolved, lockfile) = resolve(&root(vec![dep("foo", "1.0.0")]), &resolver).0.unwrap();
    assert_eq!(resolved.name, ModuleName::from_str("root"));
    assert_eq!(resolved.dependencies, vec![resolved_dep("foo", Rules::default())]);
    assert_eq!(resolved.modules.len(), 2);
    assert_eq!(module(&resolved.modules, "foo").commit_hash, "c1");
    assert_eq!(module(&resolved.modules, "bar").commit_hash, "c2");
    assert_eq!(module(&resolved.modules, "foo").dependencies, vec![resolved_dep("bar", Rules::default())]);
    assert!(module(&resolved.modules, "bar").dependencies.is_empty());
    assert_eq!(lockfile.dependencies.len(), 2);
    assert!(lockfile.dependencies.contains(&locked("bar", "2.0.0", "c2")));
    assert!(lockfile.dependencies.contains(&locked("foo", "1.0.0", "c1")));
}

#[test]
fn parent_override_wins() {
    let resolver = resolver_with(&[
        ("foo", "1.0.0", "c1", vec![dep("bar", "2.0.0")]),
        ("bar", "1.0.0", "c3", Vec::new()),
        ("bar", "2.0.0", "c2", Vec::new()),
    ]);
    let (_, lockfile) =
        resolve(&root(vec![dep("foo", "1.0.0"), dep("bar", "1.0.0")]), &resolver).0.unwrap();
    assert!(lockfile.dependencies.contains(&locked("bar", "1.0.0", "c3")));
    assert!(lockfile.dependencies.contains(&locked("foo", "1.0.0", "c1")));
}

#[test]
fn first_met_wins_over_levels() {
    let resolver = resolver_with(&[
        ("leaf", "1.0.0", "leaf1", Vec::new()),
        ("leaf", "2.0.0", "leaf2", Vec::new()),
        ("path_a_1", "1.0.0", "c1", vec![dep("path_a_2", "1.0.0")]),
        ("path_a_2", "1.0.0", "c2", vec![dep("leaf", "1.0.0")]),
        ("path_b_1", "1.0.0", "c3", vec![dep("leaf", "2.0.0")]),
    ]);
    let (_, lockfile) =
        resolve(&root(vec![dep("path_a_1", "1.0.0"), dep("path_b_1", "1.0.0")]), &resolver).0.unwrap();
    assert!(lockfile.dependencies.contains(&locked("leaf", "1.0.0", "leaf1")));
}

#[test]
fn circular_dependency() {
    let resolver = resolver_with(&[
        ("foo", "1.0.0", "c1", vec![dep("bar", "1.0.0")]),
        ("bar", "1.0.0", "c3", vec![dep("foo", "2.0.0")]),
    ]);
    let (_, lockfile) = resolve(&root(vec![dep("foo", "1.0.0")]), &resolver).0.unwrap();
    assert!(lockfile.dependencies.contains(&locked("bar", "1.0.0", "c3")));
    assert!(lockfile.dependencies.contains(&locked("foo", "1.0.0", "c1")));
}

#[test]
fn duplicate_dependencies_keep_edge_specific_policies() {
    let resolver = resolver_with(&[
        ("foo", "1.0.0", "c_foo", vec![with_policies(dep("shared", "1.0.0"), "/b.proto")]),
        ("shared", "1.0.0", "c_shared", vec![]),
    ]);
    let (resolved, _) = resolve(
        &root(vec![with_policies(dep("shared", "1.0.0"), "/a.proto"), dep("foo", "1.0.0")]),
        &resolver,
    ).0
    .unwrap();
    assert_eq!(
        resolved.dependencies,
        vec![resolved_dep("shared", rules("/a.proto")), resolved_dep("foo", Rules::default())]
    );
    assert_eq!(
        module(&resolved.modules, "foo").dependencies,
        vec![resolved_dep("shared", rules("/b.proto"))]
    );
}

#[test]
fn resolver_errors_end_resolution() {
    let resolver = resolver_with(&[("foo", "1.0.0", "c1", vec![dep("missing", "1.0.0")])]);
    let error = resolve(&root(vec![dep("foo", "1.0.0")]), &resolver).0.err().unwrap();
    assert!(matches!(error, protofetch::engine::FetchError::Resolver(m) if m == "Coordinate not found: example.com/org/missing"));
}

#[test]
fn depth_first_and_breadth_first_differ_on_deep_duplicates() {
    let resolver = resolver_with(&[
        ("leaf", "1.0.0", "leaf1", Vec::new()),
        ("leaf", "2.0.0", "leaf2", Vec::new()),
        ("a1", "1.0.0", "c1", vec![dep("a2", "1.0.0")]),
        ("a2", "1.0.0", "c2", vec![dep("leaf", "1.0.0")]),
        ("b1", "1.0.0", "c3", vec![dep("leaf", "2.0.0")]),
    ]);
    let descriptor = root(vec![dep("a1", "1.0.0"), dep("b1", "1.0.0")]);
    let lock_file = lock(&descriptor, &resolver).0.unwrap();
    assert!(lock_file.dependencies.contains(&locked("leaf", "2.0.0", "leaf2")));
    let (_, lockfile) = resolve(&descriptor, &resolver).0.unwrap();
    assert!(lockfile.dependencies.contains(&locked("leaf", "1.0.0", "leaf1")));
}

#[test]
fn parallel_resolve_sorts_the_lock_file_and_flattens_the_graph() {
    let resolver = resolver_with(&[
        ("foo", "1.0.0", "c1", vec![dep("bar", "2.0.0")]),
        ("bar", "2.0.0", "c2", Vec::new()),
    ]);
    let (flat, lockfile) = parallel_resolve(&root(vec![dep("foo", "1.0.0")]), &resolver).0.unwrap();
    assert_eq!(lockfile.dependencies, vec![locked("bar", "2.0.0", "c2"), locked("foo", "1.0.0", "c1")]);
    assert_eq!(flat.module_name, ModuleName::from_str("root"));
    assert_eq!(flat.dependencies.len(), 2);
    let foo = &flat.dependencies[0];
    assert_eq!(foo.name, ModuleName::from_str("foo"));
    assert_eq!(foo.dependencies, vec![ModuleName::from_str("bar")]);
    assert_eq!(foo.rules, vec![Rules::default()]);
    assert!(!foo.is_pruned());
    assert!(!foo.is_transitive());
    let bar = &flat.dependencies[1];
    assert_eq!(bar.rules, vec![Rules::default()]);
    assert!(bar.dependencies.is_empty());
}

#[test]
fn resolving_without_dependencies_asks_nothing_and_succeeds() {
    let resolver = resolver_with(&[]);
    let (graph, lockfile) = resolve(&root(Vec::new()), &resolver).0.unwrap();
    assert!(graph.modules.is_empty());
    assert!(lockfile.dependencies.is_empty());
    let locked_only = lock(&root(Vec::new()), &resolver).0.unwrap();
    assert!(locked_only.dependencies.is_empty());
    let (flat, flat_lock) = parallel_resolve(&root(Vec::new()), &resolver).0.unwrap();
    assert!(flat.dependencies.is_empty());
    assert!(flat_lock.dependencies.is_empty());
}

#[test]
fn every_resolution_error_is_the_resolvers() {
    let resolver = resolver_with(&[]);
    let missing = root(vec![dep("missing", "1.0.0")]);
    assert!(matches!(lock(&missing, &resolver).0, Err(protofetch::engine::FetchError::Resolver(_))));
    assert!(matches!(parallel_resolve(&missing, &resolver).0, Err(protofetch::engine::FetchError::Resolver(_))));
}

#[test]
fn parallel_and_sequential_resolution_agree() {
    let resolver = resolver_with(&[
        ("zeta", "1.0.0", "c1", vec![dep("alpha", "2.0.0"), dep("mid", "3.0.0")]),
        ("alpha", "2.0.0", "c2", Vec::new()),
        ("mid", "3.0.0", "c3", vec![dep("alpha", "2.0.0")]),
    ]);
    let descriptor = root(vec![dep("zeta", "1.0.0"), dep("mid", "3.0.0")]);
    let (_, sequential) = resolve(&descriptor, &resolver).0.unwrap();
    let (flat, parallel) = parallel_resolve(&descriptor, &resolver).0.unwrap();
    let mut sorted = sequential.dependencies.clone();
    sorted.sort_by(|a, b| a.name.as_str().cmp(b.name.as_str()));
    assert_eq!(parallel.dependencies, sorted);
    let names: Vec<&str> = parallel.dependencies.iter().map(|d| d.name.as_str()).collect();
    assert_eq!(names, vec!["alpha", "mid", "zeta"]);
    assert_eq!(flat.dependencies.len(), 3);
}
