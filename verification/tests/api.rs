use protofetch::api::{
    build_module_name, lock_strategy, output_directory_path, update_strategy, DependencyUpdate, HttpGitAuth,
    LockMode, LockUpdateMode, ProtofetchBuilder, ResolverChoice,
};
use protofetch::cli::{plan_run, Action, CliArgs, Command};

fn args(cmd: Command) -> CliArgs {
    CliArgs {
        cmd,
        module_location: "protofetch.toml".to_string(),
        lockfile_location: "protofetch.lock".to_string(),
        cache_directory: None,
        output_proto_directory: None,
        jobs: None,
        copy_jobs: None,
    }
}

#[test]
fn fetch_lock_strategies() {
    assert_eq!(lock_strategy(LockMode::Locked, false), Err("Lock file does not exist".to_string()));
    assert_eq!(lock_strategy(LockMode::Locked, true), Ok(ResolverChoice::FromLock { locked: true }));
    assert_eq!(lock_strategy(LockMode::Update, false), Ok(ResolverChoice::Fresh));
    assert_eq!(lock_strategy(LockMode::Update, true), Ok(ResolverChoice::FromLock { locked: false }));
    assert_eq!(lock_strategy(LockMode::Recreate, true), Ok(ResolverChoice::Fresh));
}

#[test]
fn update_strategies() {
    assert_eq!(update_strategy(&LockUpdateMode::Full, true), ResolverChoice::Fresh);
    assert_eq!(update_strategy(&LockUpdateMode::Reconcile, true), ResolverChoice::FromLock { locked: false });
    assert_eq!(update_strategy(&LockUpdateMode::Reconcile, false), ResolverChoice::Fresh);
    let updates = LockUpdateMode::ReconcileAndUpdate(vec![
        DependencyUpdate::Latest { name: "repo1".to_string() },
        DependencyUpdate::Precise { name: "repo2".to_string(), commit_hash: "abc".to_string() },
        DependencyUpdate::Precise { name: "repo1".to_string(), commit_hash: "def".to_string() },
    ]);
    assert_eq!(
        update_strategy(&updates, true),
        ResolverChoice::Selected(vec![
            ("repo2".to_string(), Some("abc".to_string())),
            ("repo1".to_string(), Some("def".to_string())),
        ])
    );
    assert_eq!(update_strategy(&updates, false), ResolverChoice::Fresh);
}

#[test]
fn output_directories() {
    assert_eq!(output_directory_path("/root", Some("out"), Some("proto_out")), "/root/out");
    assert_eq!(output_directory_path("/root", None, Some("proto_out")), "/root/proto_out");
    assert_eq!(output_directory_path("/root", None, None), "/root/proto_src");
}

#[test]
fn module_names() {
    assert_eq!(build_module_name(Some("given".to_string()), "/a/b").unwrap().as_str(), "given");
    assert_eq!(build_module_name(None, "/a/project").unwrap().as_str(), "project");
    assert_eq!(
        build_module_name(None, "/").unwrap_err(),
        "Module name not given and could not convert location to directory name"
    );
}

#[test]
fn builder_fills_in_defaults() {
    let s = ProtofetchBuilder::default().settings("/work".to_string(), ".protofetch/cache");
    assert_eq!(s.root, "/work");
    assert_eq!(s.module_file_name, "protofetch.toml");
    assert_eq!(s.lock_file_name, "protofetch.lock");
    assert_eq!(s.cache_directory, "/work/.protofetch/cache");
    assert_eq!(s.output_directory_name, None);
    assert_eq!(s.cache_dependencies_directory_name, "dependencies");
    assert_eq!(s.jobs, None);
}

#[test]
fn builder_keeps_what_was_set() {
    let s = ProtofetchBuilder::default()
        .root("/project")
        .module_file_name("m.toml")
        .lock_file_name("m.lock")
        .cache_directory("/var/cache/pf")
        .output_directory_name("gen")
        .http_credentials(Some("user".to_string()), Some("secret".to_string()))
        .cache_dependencies_directory_name("deps")
        .jobs(3)
        .copy_jobs(5)
        .settings("/work".to_string(), ".cache");
    assert_eq!(s.root, "/project");
    assert_eq!(s.module_file_name, "m.toml");
    assert_eq!(s.lock_file_name, "m.lock");
    assert_eq!(s.cache_directory, "/var/cache/pf");
    assert_eq!(s.output_directory_name, Some("gen".to_string()));
    assert_eq!(s.http_username, Some("user".to_string()));
    assert_eq!(s.http_password, Some("secret".to_string()));
    assert_eq!(s.cache_dependencies_directory_name, "deps");
    assert_eq!(s.jobs, Some(3));
    assert_eq!(s.copy_jobs, Some(5));
    let auth = HttpGitAuth::new("u".to_string(), "p".to_string());
    assert_eq!(auth.username, "u");
}

#[test]
fn runs_of_each_command() {
    let p = plan_run(args(Command::Fetch { locked: true, force_lock: false })).unwrap();
    assert_eq!(p.action, Action::Fetch(LockMode::Locked));
    assert!(!p.force_lock_used);
    let p = plan_run(args(Command::Fetch { locked: false, force_lock: true })).unwrap();
    assert_eq!(p.action, Action::Fetch(LockMode::Recreate));
    assert!(p.force_lock_used);
    let p = plan_run(args(Command::Lock)).unwrap();
    assert_eq!(p.action, Action::Update(LockUpdateMode::Reconcile));
    let p = plan_run(args(Command::Update { deps: vec![], precise: None })).unwrap();
    assert_eq!(p.action, Action::Update(LockUpdateMode::Full));
    let p = plan_run(args(Command::Update {
        deps: vec!["repo1".to_string(), "repo2".to_string()],
        precise: None,
    }))
    .unwrap();
    assert_eq!(
        p.action,
        Action::Update(LockUpdateMode::ReconcileAndUpdate(vec![
            DependencyUpdate::Latest { name: "repo1".to_string() },
            DependencyUpdate::Latest { name: "repo2".to_string() },
        ]))
    );
    let p = plan_run(args(Command::Update { deps: vec!["repo1".to_string()], precise: Some("abc123".to_string()) }))
        .unwrap();
    assert_eq!(
        p.action,
        Action::Update(LockUpdateMode::ReconcileAndUpdate(vec![DependencyUpdate::Precise {
            name: "repo1".to_string(),
            commit_hash: "abc123".to_string(),
        }]))
    );
    let p = plan_run(args(Command::Init { directory: "/new".to_string(), name: None })).unwrap();
    assert_eq!(p.action, Action::Init { name: None });
    let s = p.builder.settings("/work".to_string(), ".cache");
    assert_eq!(s.root, "/new");
    assert_eq!(plan_run(args(Command::Clean)).unwrap().action, Action::Clean);
    assert_eq!(plan_run(args(Command::ClearCache)).unwrap().action, Action::ClearCache);
}

#[test]
fn bad_arguments_are_refused() {
    let mut a = args(Command::Lock);
    a.jobs = Some(0);
    assert_eq!(plan_run(a).err(), Some("--jobs must be at least 1".to_string()));
    let mut a = args(Command::Lock);
    a.copy_jobs = Some(0);
    assert_eq!(plan_run(a).err(), Some("--copy-jobs must be at least 1".to_string()));
    let a = args(Command::Update { deps: vec![], precise: Some("abc".to_string()) });
    assert_eq!(plan_run(a).err(), Some("--precise requires exactly one DEP".to_string()));
}
