use protofetch::model::protofetch::{
    AllowPolicies, ContentRoot, Coordinate, DenyPolicies, Dependency, Descriptor, FilePolicy,
    ModuleName, PolicyKind, Protocol, Revision, RevisionSpecification, Rules,
};
use protofetch::model::ParseError;
use protofetch::toml_doc::{parse_toml, TomlValue};

fn same_value(a: &TomlValue, b: &TomlValue) -> bool {
    match (a, b) {
        (TomlValue::Table(x), TomlValue::Table(y)) => same_table(x, y),
        (TomlValue::Array(x), TomlValue::Array(y)) => {
            x.len() == y.len() && x.iter().zip(y.iter()).all(|(p, q)| same_value(p, q))
        }
        _ => a == b,
    }
}

/// Tables compared as maps, as `toml::Value` compares them.
fn same_table(a: &[(String, TomlValue)], b: &[(String, TomlValue)]) -> bool {
    a.len() == b.len()
        && a.iter().all(|(k, v)| b.iter().any(|(k2, v2)| k == k2 && same_value(v, v2)))
}

fn repo(protocol: Option<Protocol>) -> Coordinate {
    Coordinate {
        forge: "github.com".to_string(),
        organization: "org".to_string(),
        repository: "repo".to_string(),
        protocol,
    }
}

fn dependency(name: &str, revision: Revision, rules: Rules) -> Dependency {
    Dependency {
        name: ModuleName::new(name.to_string()),
        coordinate: repo(Some(Protocol::Https)),
        specification: RevisionSpecification { revision, branch: None },
        rules,
    }
}

#[test]
fn mod_load_valid_file_one_dep() {
    let str = r#"
        name = "test_file"
        description = "this is a description"
        proto_out_dir= "./path/to/proto_out"
        [dependency1]
            protocol = "https"
            url = "github.com/org/repo"
            revision = "1.0.0"
    "#;
    let expected = Descriptor {
        name: ModuleName::from_str("test_file"),
        description: Some("this is a description".to_string()),
        proto_out_dir: Some("./path/to/proto_out".to_string()),
        dependencies: vec![dependency("dependency1", Revision::pinned("1.0.0".to_owned()), Rules::default())],
    };
    assert_eq!(Descriptor::from_toml_str(str).unwrap(), expected);
}

#[test]
fn load_valid_file_no_revision() {
    let str = r#"
        name = "test_file"
        description = "this is a description"
        proto_out_dir= "./path/to/proto_out"
        [dependency1]
            protocol = "https"
            url = "github.com/org/repo"
    "#;
    let expected = Descriptor {
        name: ModuleName::from_str("test_file"),
        description: Some("this is a description".to_string()),
        proto_out_dir: Some("./path/to/proto_out".to_string()),
        dependencies: vec![dependency("dependency1", Revision::Arbitrary, Rules::default())],
    };
    assert_eq!(Descriptor::from_toml_str(str).unwrap(), expected);
    assert!(same_table(&expected.into_toml(), &parse_toml(str).unwrap()));
}

#[test]
fn mod_load_valid_file_one_dep_with_rules() {
    let str = r#"
        name = "test_file"
        description = "this is a description"
        proto_out_dir= "./path/to/proto_out"
        [dependency1]
            protocol = "https"
            url = "github.com/org/repo"
            revision = "1.0.0"
            prune = true
            content_roots = ["src"]
            allow_policies = ["/foo/proto/file.proto", "/foo/other/*", "*/some/path/*"]
    "#;
    let rules = Rules {
        prune: true,
        content_roots: vec![ContentRoot::from_string("src")],
        transitive: false,
        allow_policies: AllowPolicies::new(vec![
            FilePolicy::new(PolicyKind::File, "/foo/proto/file.proto".to_owned()),
            FilePolicy::new(PolicyKind::Prefix, "/foo/other".to_owned()),
            FilePolicy::new(PolicyKind::SubPath, "/some/path".to_owned()),
        ]),
        deny_policies: DenyPolicies::default(),
    };
    let expected = Descriptor {
        name: ModuleName::from_str("test_file"),
        description: Some("this is a description".to_string()),
        proto_out_dir: Some("./path/to/proto_out".to_string()),
        dependencies: vec![dependency("dependency1", Revision::pinned("1.0.0".to_owned()), rules)],
    };
    assert_eq!(Descriptor::from_toml_str(str).unwrap(), expected);
}

#[test]
#[should_panic]
fn mod_load_invalid_file_invalid_rule() {
    let str = r#"
    name = "test_file"
    description = "this is a description"
    proto_out_dir= "./path/to/proto_out"
    [dependency1]
        protocol = "https"
        url = "github.com/org/repo"
        revision = "1.0.0"
        prune = true
        content_roots = ["src"]
        allow_policies = ["/foo/proto/file.java"]
    "#;
    Descriptor::from_toml_str(str).unwrap();
}

#[test]
fn invalid_rule_is_named() {
    let str = r#"
    name = "test_file"
    [dependency1]
        url = "github.com/org/repo"
        allow_policies = ["/foo/proto/file.java"]
    "#;
    assert_eq!(
        Descriptor::from_toml_str(str),
        Err(ParseError::ParsePolicyRuleError("/foo/proto/file.java".to_owned()))
    );
}

#[test]
fn mod_load_valid_file_multiple_dep() {
    let str = r#"
        name = "test_file"
        proto_out_dir= "./path/to/proto_out"

        [dependency1]
            protocol = "https"
            url = "github.com/org/repo"
            revision = "1.0.0"
        [dependency2]
            protocol = "https"
            url = "github.com/org/repo"
            revision = "2.0.0"
        [dependency3]
            protocol = "https"
            url = "github.com/org/repo"
            revision = "3.0.0"  
    "#;
    let expected = vec![
        dependency("dependency1", Revision::pinned("1.0.0".to_owned()), Rules::default()),
        dependency("dependency2", Revision::pinned("2.0.0".to_owned()), Rules::default()),
        dependency("dependency3", Revision::pinned("3.0.0".to_owned()), Rules::default()),
    ];
    let res = Descriptor::from_toml_str(str).unwrap().dependencies;
    assert_eq!(res.len(), expected.len());
    for d in &expected {
        assert!(res.contains(d));
    }
}

#[test]
fn mod_load_file_no_deps() {
    let str = r#"
        name = "test_file"
        proto_out_dir = "./path/to/proto_out"
    "#;
    let expected = Descriptor {
        name: ModuleName::from_str("test_file"),
        description: None,
        proto_out_dir: Some("./path/to/proto_out".to_string()),
        dependencies: vec![],
    };
    assert_eq!(Descriptor::from_toml_str(str).unwrap(), expected);
    assert!(same_table(&expected.into_toml(), &parse_toml(str).unwrap()));
}

#[test]
fn mod_load_invalid_protocol() {
    let str = r#"
        name = "test_file"
        proto_out_dir = "./path/to/proto_out"
        [dependency1]
            protocol = "ftp"
            url = "github.com/org/repo"
            revision = "1.0.0"
    "#;
    assert!(Descriptor::from_toml_str(str).is_err());
}

#[test]
fn mod_load_invalid_url() {
    let str = r#"
        name = "test_file"
        proto_out_dir = "./path/to/proto_out"
        [dependency1]
            protocol = "ftp"
            url = "github.com/org"
            revision = "1.0.0"
    "#;
    assert!(Descriptor::from_toml_str(str).is_err());
}

#[test]
fn missing_name_is_reported() {
    assert_eq!(
        Descriptor::from_toml_str("proto_out_dir = \"out\""),
        Err(ParseError::MissingKey("name".to_owned()))
    );
}

#[test]
fn malformed_toml_is_reported() {
    assert!(matches!(Descriptor::from_toml_str("name = "), Err(ParseError::Toml(_))));
}

#[test]
fn mod_build_coordinate() {
    let str = "github.com/coralogix/cx-api-users";
    assert_eq!(
        Coordinate::from_url(str).unwrap(),
        Coordinate {
            forge: "github.com".to_owned(),
            organization: "coralogix".to_owned(),
            repository: "cx-api-users".to_owned(),
            protocol: None,
        }
    );
}

#[test]
fn mod_build_coordinate_slash() {
    let str = "github.com/coralogix/cx-api-users/";
    assert_eq!(
        Coordinate::from_url(str).unwrap(),
        Coordinate {
            forge: "github.com".to_owned(),
            organization: "coralogix".to_owned(),
            repository: "cx-api-users".to_owned(),
            protocol: None,
        }
    );
}

#[test]
fn coordinate_urls_and_protocols() {
    let c = Coordinate::from_url_protocol("github.com/org/repo", Some(Protocol::Https)).unwrap();
    assert_eq!(c.to_path(), "github.com/org/repo");
    assert_eq!(c.to_git_url(Protocol::Ssh), "https://github.com/org/repo");
    let d = Coordinate::from_url("github.com/org/repo").unwrap();
    assert_eq!(d.to_git_url(Protocol::Ssh), "ssh://git@github.com/org/repo.git");
    assert_eq!(
        Coordinate::from_url("github.com/org"),
        Err(ParseError::MissingUrlComponent("forge".to_owned(), "github.com/org".to_owned()))
    );
    assert_eq!(Protocol::parse("HTTPS"), Ok(Protocol::Https));
    assert_eq!(Protocol::parse("Ftp"), Err(ParseError::InvalidProtocol("ftp".to_owned())));
}

#[test]
fn mod_test_allow_policies_rule_filter() {
    let rules = AllowPolicies::new(vec![
        FilePolicy::try_from_str("/foo/proto/file.proto").unwrap(),
        FilePolicy::try_from_str("/foo/other/*").unwrap(),
        FilePolicy::try_from_str("*/path/*").unwrap(),
    ]);
    let path = vec![
        "/foo/proto/file.proto".to_owned(),
        "/foo/other/file1.proto".to_owned(),
        "/some/path/file.proto".to_owned(),
    ];
    let res = AllowPolicies::filter(&rules, &path);
    assert_eq!(res.len(), 3);
}

#[test]
fn mod_test_allow_policies_rule_filter_edge_case_slash_path() {
    let rules = AllowPolicies::new(vec![
        FilePolicy::try_from_str("/foo/proto/file.proto").unwrap(),
        FilePolicy::try_from_str("/foo/other/*").unwrap(),
        FilePolicy::try_from_str("*/path/*").unwrap(),
    ]);
    let path = vec!["foo/proto/file.proto".to_owned(), "foo/other/file2.proto".to_owned()];
    let res = AllowPolicies::filter(&rules, &path);
    assert_eq!(res.len(), 2);
}

#[test]
fn mod_test_allow_policies_rule_filter_edge_case_slash_rule() {
    let allow_policies = AllowPolicies::new(vec![
        FilePolicy::try_from_str("foo/proto/file.proto").unwrap(),
        FilePolicy::try_from_str("foo/other/*").unwrap(),
        FilePolicy::try_from_str("*/path/*").unwrap(),
    ]);
    let files = vec![
        "/foo/proto/file.proto".to_owned(),
        "/foo/other/file2.proto".to_owned(),
        "/path/dep/file3.proto".to_owned(),
    ];
    let res = AllowPolicies::filter(&allow_policies, &files);
    assert_eq!(res.len(), 3);
}

#[test]
fn mod_test_deny_policies_rule_filter() {
    let rules = DenyPolicies::new(vec![
        FilePolicy::try_from_str("/foo/proto/file.proto").unwrap(),
        FilePolicy::try_from_str("/foo/other/*").unwrap(),
        FilePolicy::try_from_str("*/path/*").unwrap(),
    ]);
    let files = vec![
        "/foo/proto/file.proto".to_owned(),
        "/foo/other/file1.proto".to_owned(),
        "/some/path/file.proto".to_owned(),
    ];
    let res = DenyPolicies::deny_files(&rules, &files);
    assert_eq!(res.len(), 0);
}

#[test]
fn mod_test_deny_policies_rule_filter_file() {
    let rules = DenyPolicies::new(vec![
        FilePolicy::try_from_str("/foo/proto/file.proto").unwrap(),
        FilePolicy::try_from_str("/foo/other/*").unwrap(),
        FilePolicy::try_from_str("*/path/*").unwrap(),
    ]);
    let file = "/foo/proto/file.proto";
    let res = DenyPolicies::should_deny_file(&rules, file);
    assert!(res);
}

#[test]
fn deny_policies_read_relative_files_as_absolute() {
    let rules = DenyPolicies::new(vec![FilePolicy::try_from_str("*/internal/*").unwrap()]);
    assert!(DenyPolicies::should_deny_file(&rules, "internal/admin.proto"));
    assert!(!DenyPolicies::should_deny_file(&rules, "public/service.proto"));
    assert!(!DenyPolicies::should_deny_file(&DenyPolicies::default(), "internal/admin.proto"));
}

#[test]
fn policy_rule_forms() {
    assert_eq!(
        FilePolicy::try_from_str("*/path/*").unwrap(),
        FilePolicy::new(PolicyKind::SubPath, "/path".to_owned())
    );
    assert_eq!(
        FilePolicy::try_from_str("foo/other/*").unwrap(),
        FilePolicy::new(PolicyKind::Prefix, "/foo/other".to_owned())
    );
    assert_eq!(
        FilePolicy::try_from_str("foo/a.proto").unwrap(),
        FilePolicy::new(PolicyKind::File, "/foo/a.proto".to_owned())
    );
    assert_eq!(
        FilePolicy::try_from_str("foo/a.java"),
        Err(ParseError::ParsePolicyRuleError("foo/a.java".to_owned()))
    );
}

#[test]
fn duplicate_policies_count_once() {
    let rules = AllowPolicies::new(vec![
        FilePolicy::try_from_str("/a.proto").unwrap(),
        FilePolicy::try_from_str("a.proto").unwrap(),
    ]);
    assert_eq!(rules.as_slice().len(), 1);
}

#[test]
fn descriptors_read_back_from_their_tables() {
    let str = r#"
        name = "test_file"
        description = "this is a description"
        proto_out_dir = "./path/to/proto_out"
        [dependency1]
            protocol = "ssh"
            url = "github.com/org/repo"
            revision = "1.0.0"
            branch = "main"
        [dependency2]
            url = "github.com/org/other"
    "#;
    let d = Descriptor::from_toml_str(str).unwrap();
    let again = Descriptor::from_toml_table(&d.clone().into_toml()).unwrap();
    assert_eq!(again, d);
}

#[test]
fn protocols_read_back_from_their_names() {
    assert_eq!(Protocol::parse(Protocol::Https.as_str()).unwrap(), Protocol::Https);
    assert_eq!(Protocol::parse(Protocol::Ssh.as_str()).unwrap(), Protocol::Ssh);
    assert_eq!(Protocol::parse("SSH").unwrap(), Protocol::Ssh);
    assert!(matches!(Protocol::parse("ftp"), Err(ParseError::InvalidProtocol(p)) if p == "ftp"));
}

#[test]
fn protocol_from_str_reads_names_ignoring_case() {
    assert_eq!("SsH".parse::<Protocol>(), Ok(Protocol::Ssh));
    assert_eq!("https".parse::<Protocol>(), Ok(Protocol::Https));
    assert_eq!("FTP".parse::<Protocol>(), Err(ParseError::InvalidProtocol("ftp".to_string())));
}

#[test]
fn regex_policy_keeps_paths_with_a_match() {
    let policy = FilePolicy::try_from_str("re://service").unwrap();
    assert_eq!(policy.kind, PolicyKind::Regex);
    assert_eq!(policy.path, "service");
    let allow = AllowPolicies::new(vec![policy]);
    assert!(AllowPolicies::should_allow_file(&allow, "proto/service.proto"));
    assert!(!AllowPolicies::should_allow_file(&allow, "proto/internal.proto"));
    assert!(FilePolicy::try_from_str("re://(unclosed").is_err());
}
