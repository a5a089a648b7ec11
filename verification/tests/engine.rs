use protofetch::engine::copy::{graph_is_closed, plan_copies, FileImports, ProtoSource, SourceListing};
use protofetch::engine::imports::extract_imports;
use protofetch::engine::sources::claim_sources;
use protofetch::engine::{ParallelConfig, ResolvedDependency, ResolvedModule, ResolvedRootModule};
use protofetch::model::protofetch::{
    AllowPolicies, Coordinate, DenyPolicies, FilePolicy, ModuleName, Revision, RevisionSpecification,
    Rules,
};

fn coord(name: &str) -> Coordinate {
    Coordinate::from_url(&format!("example.com/org/{}", name)).unwrap()
}

fn module(name: &str, hash: &str, deps: Vec<ResolvedDependency>) -> ResolvedModule {
    ResolvedModule {
        name: ModuleName::from_str(name),
        commit_hash: hash.to_string(),
        coordinate: coord(name),
        specification: RevisionSpecification { revision: Revision::pinned("1.0.0".to_string()), branch: None },
        dependencies: deps,
    }
}

fn edge(name: &str, rules: Rules) -> ResolvedDependency {
    ResolvedDependency { name: ModuleName::from_str(name), rules }
}

fn source(worktree: &str, path: &str) -> ProtoSource {
    ProtoSource { worktree: worktree.to_string(), content_root: String::new(), package_path: path.to_string() }
}

fn listing(name: &str, worktree: &str, paths: &[&str]) -> SourceListing {
    SourceListing {
        name: ModuleName::from_str(name),
        content_roots: vec![],
        sources: paths.iter().map(|p| source(worktree, p)).collect(),
    }
}

fn planned(plan: &protofetch::engine::copy::CopyPlan) -> Vec<(String, String)> {
    let mut v: Vec<(String, String)> =
        plan.mappings.iter().map(|m| (m.module.as_str().to_string(), m.package_path.clone())).collect();
    v.sort();
    v
}

#[test]
fn every_file_of_a_plain_dependency_is_copied() {
    let root = ResolvedRootModule {
        name: ModuleName::from_str("root"),
        modules: vec![module("dep1", "hash1", vec![])],
        dependencies: vec![edge("dep1", Rules::default())],
    };
    let listings = vec![listing("dep1", "/cache/dep1/hash1", &["proto/a.proto", "proto/b.proto"])];
    let plan = plan_copies(&root, &listings, &vec![]);
    assert_eq!(
        planned(&plan),
        vec![
            ("dep1".to_string(), "proto/a.proto".to_string()),
            ("dep1".to_string(), "proto/b.proto".to_string())
        ]
    );
    assert!(plan.unresolved_imports.is_empty());
}

#[test]
fn deny_policies_leave_files_out() {
    let rules = Rules {
        deny_policies: DenyPolicies::new(vec![FilePolicy::try_from_str("/proto/b.proto").unwrap()]),
        ..Rules::default()
    };
    let root = ResolvedRootModule {
        name: ModuleName::from_str("root"),
        modules: vec![module("dep1", "hash1", vec![])],
        dependencies: vec![edge("dep1", rules)],
    };
    let listings = vec![listing("dep1", "/cache/dep1/hash1", &["proto/a.proto", "proto/b.proto"])];
    let plan = plan_copies(&root, &listings, &vec![]);
    assert_eq!(planned(&plan), vec![("dep1".to_string(), "proto/a.proto".to_string())]);
}

#[test]
fn allow_policies_select_files() {
    let rules = Rules {
        allow_policies: AllowPolicies::new(vec![FilePolicy::try_from_str("/proto/b.proto").unwrap()]),
        ..Rules::default()
    };
    let root = ResolvedRootModule {
        name: ModuleName::from_str("root"),
        modules: vec![module("dep1", "hash1", vec![])],
        dependencies: vec![edge("dep1", rules)],
    };
    let listings = vec![listing("dep1", "/cache/dep1/hash1", &["proto/a.proto", "proto/b.proto"])];
    let plan = plan_copies(&root, &listings, &vec![]);
    assert_eq!(planned(&plan), vec![("dep1".to_string(), "proto/b.proto".to_string())]);
}

#[test]
fn transitive_dependencies_are_copied_too() {
    let root = ResolvedRootModule {
        name: ModuleName::from_str("root"),
        modules: vec![
            module("dep1", "hash1", vec![edge("dep2", Rules::default())]),
            module("dep2", "hash2", vec![]),
        ],
        dependencies: vec![edge("dep1", Rules::default())],
    };
    let listings = vec![
        listing("dep1", "/cache/dep1/hash1", &["one.proto"]),
        listing("dep2", "/cache/dep2/hash2", &["two.proto"]),
    ];
    let plan = plan_copies(&root, &listings, &vec![]);
    assert_eq!(
        planned(&plan),
        vec![("dep1".to_string(), "one.proto".to_string()), ("dep2".to_string(), "two.proto".to_string())]
    );
}

#[test]
fn pruning_copies_only_what_is_imported() {
    let prune = Rules {
        prune: true,
        allow_policies: AllowPolicies::new(vec![FilePolicy::try_from_str("/a.proto").unwrap()]),
        ..Rules::default()
    };
    let root = ResolvedRootModule {
        name: ModuleName::from_str("root"),
        modules: vec![module("dep1", "hash1", vec![])],
        dependencies: vec![edge("dep1", prune)],
    };
    let listings = vec![listing("dep1", "/w", &["a.proto", "b.proto", "unused.proto"])];
    let imports = vec![
        FileImports { path: "/w/a.proto".to_string(), imports: vec!["b.proto".to_string()] },
        FileImports { path: "/w/b.proto".to_string(), imports: vec![] },
        FileImports { path: "/w/unused.proto".to_string(), imports: vec![] },
    ];
    let plan = plan_copies(&root, &listings, &imports);
    assert_eq!(
        planned(&plan),
        vec![("dep1".to_string(), "a.proto".to_string()), ("dep1".to_string(), "b.proto".to_string())]
    );
}

#[test]
fn imports_are_read_line_by_line() {
    let text = "syntax = \"proto3\";\nimport \"scalapb/scalapb.proto\";\nimport public \"google/protobuf/descriptor.proto\";\nimport \"google/protobuf/struct.proto\";\n  import \"indented.proto\";\n";
    assert_eq!(
        extract_imports(text, false),
        vec![
            "scalapb/scalapb.proto".to_string(),
            "public".to_string(),
            "google/protobuf/struct.proto".to_string()
        ]
    );
    assert_eq!(
        extract_imports(text, true),
        vec!["scalapb/scalapb.proto".to_string(), "public".to_string()]
    );
    assert!(extract_imports("", true).is_empty());
}

#[test]
fn parallel_configuration_follows_the_processors() {
    assert_eq!(ParallelConfig::for_processors(2), ParallelConfig { network_jobs: 16, copy_jobs: 4 });
    assert_eq!(ParallelConfig::for_processors(24), ParallelConfig { network_jobs: 16, copy_jobs: 12 });
}

#[test]
fn a_target_written_twice_keeps_the_first_source() {
    let root = ResolvedRootModule {
        name: ModuleName::from_str("root"),
        modules: vec![module("dep1", "hash1", vec![]), module("dep2", "hash2", vec![])],
        dependencies: vec![edge("dep1", Rules::default()), edge("dep2", Rules::default())],
    };
    let listings = vec![
        listing("dep1", "/cache/dep1/hash1", &["shared.proto", "one.proto"]),
        listing("dep2", "/cache/dep2/hash2", &["shared.proto", "two.proto"]),
    ];
    let plan = plan_copies(&root, &listings, &vec![]);
    assert_eq!(
        planned(&plan),
        vec![
            ("dep1".to_string(), "one.proto".to_string()),
            ("dep1".to_string(), "shared.proto".to_string()),
            ("dep2".to_string(), "two.proto".to_string())
        ]
    );
}

#[test]
fn pruning_follows_imports_through_several_files() {
    let prune = Rules {
        prune: true,
        allow_policies: AllowPolicies::new(vec![FilePolicy::try_from_str("/a.proto").unwrap()]),
        ..Rules::default()
    };
    let root = ResolvedRootModule {
        name: ModuleName::from_str("root"),
        modules: vec![module("dep1", "hash1", vec![])],
        dependencies: vec![edge("dep1", prune)],
    };
    let listings = vec![listing("dep1", "/w", &["a.proto", "b.proto", "c.proto", "d.proto"])];
    let imports = vec![
        FileImports { path: "/w/a.proto".to_string(), imports: vec!["b.proto".to_string()] },
        FileImports { path: "/w/b.proto".to_string(), imports: vec!["c.proto".to_string()] },
        FileImports { path: "/w/c.proto".to_string(), imports: vec![] },
        FileImports { path: "/w/d.proto".to_string(), imports: vec!["a.proto".to_string()] },
    ];
    let plan = plan_copies(&root, &listings, &imports);
    assert_eq!(
        planned(&plan),
        vec![
            ("dep1".to_string(), "a.proto".to_string()),
            ("dep1".to_string(), "b.proto".to_string()),
            ("dep1".to_string(), "c.proto".to_string())
        ]
    );
}

#[test]
fn a_graph_is_closed_when_every_edge_has_its_module() {
    let closed = ResolvedRootModule {
        name: ModuleName::from_str("root"),
        modules: vec![module("dep1", "hash1", vec![edge("dep2", Rules::default())]), module("dep2", "hash2", vec![])],
        dependencies: vec![edge("dep1", Rules::default())],
    };
    assert!(graph_is_closed(&closed));
    let open_edge = ResolvedRootModule {
        name: ModuleName::from_str("root"),
        modules: vec![module("dep1", "hash1", vec![edge("dep2", Rules::default())])],
        dependencies: vec![edge("dep1", Rules::default())],
    };
    assert!(!graph_is_closed(&open_edge));
    let open_root = ResolvedRootModule {
        name: ModuleName::from_str("root"),
        modules: vec![],
        dependencies: vec![edge("dep1", Rules::default())],
    };
    assert!(!graph_is_closed(&open_root));
}

fn claimed(sources: &[ProtoSource]) -> Vec<(String, String)> {
    sources.iter().map(|s| (s.content_root.clone(), s.package_path.clone())).collect()
}

#[test]
fn without_content_roots_the_worktree_claims_every_proto_file() {
    let files = vec![
        "a.proto".to_string(),
        "dir/b.proto".to_string(),
        "readme.md".to_string(),
        "dir/.proto".to_string(),
    ];
    let sources = claim_sources("/w", &files, &vec![]);
    assert_eq!(claimed(&sources), vec![("".to_string(), "a.proto".to_string()), ("".to_string(), "dir/b.proto".to_string())]);
    assert!(sources.iter().all(|s| s.worktree == "/w"));
}

#[test]
fn the_longest_content_root_claims_a_file() {
    let files = vec![
        "scope/inner/x.proto".to_string(),
        "scope/y.proto".to_string(),
        "other/z.proto".to_string(),
        "scope/inner/deep/w.proto".to_string(),
    ];
    let roots = vec!["scope".to_string(), "scope/inner".to_string()];
    let sources = claim_sources("/w", &files, &roots);
    assert_eq!(
        claimed(&sources),
        vec![
            ("scope/inner".to_string(), "x.proto".to_string()),
            ("scope".to_string(), "y.proto".to_string()),
            ("scope/inner".to_string(), "deep/w.proto".to_string()),
        ]
    );
}

#[test]
fn deny_policies_apply_down_the_graph() {
    let deny = Rules {
        deny_policies: DenyPolicies::new(vec![FilePolicy::try_from_str("/c/x.proto").unwrap()]),
        ..Rules::default()
    };
    let root = ResolvedRootModule {
        name: ModuleName::from_str("root"),
        modules: vec![
            module("dep1", "hash1", vec![edge("dep2", Rules::default())]),
            module("dep2", "hash2", vec![edge("dep3", Rules::default())]),
            module("dep3", "hash3", vec![]),
        ],
        dependencies: vec![edge("dep1", deny)],
    };
    let listings = vec![
        listing("dep1", "/w1", &["one.proto"]),
        listing("dep2", "/w2", &["two.proto"]),
        listing("dep3", "/w3", &["c/x.proto", "c/y.proto"]),
    ];
    let plan = plan_copies(&root, &listings, &vec![]);
    assert_eq!(
        planned(&plan),
        vec![
            ("dep1".to_string(), "one.proto".to_string()),
            ("dep2".to_string(), "two.proto".to_string()),
            ("dep3".to_string(), "c/y.proto".to_string())
        ]
    );
}
