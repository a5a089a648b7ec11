use protofetch::model::protofetch::{
    LockFile, LockedCoordinate, LockedDependency, ModuleName, Protocol, Revision,
    RevisionSpecification,
};
use protofetch::model::ParseError;

fn dependency_table(entries: &[(&str, &str)]) -> toml::Value {
    let mut t = toml::Table::new();
    for (k, v) in entries {
        t.insert((*k).to_owned(), toml::Value::String((*v).to_owned()));
    }
    toml::Value::Table(t)
}

#[test]
fn load_save_lock_file() {
    let mut table = toml::Table::new();
    table.insert("version".to_owned(), toml::Value::Integer(2));
    table.insert(
        "dependencies".to_owned(),
        toml::Value::Array(vec![
            dependency_table(&[
                ("name", "dep1"),
                ("url", "example.com/org/dep1"),
                ("protocol", "https"),
                ("revision", "1.0.0"),
                ("branch", "main"),
                ("commit_hash", "hash1"),
            ]),
            dependency_table(&[
                ("name", "dep2"),
                ("url", "example.com/org/dep2"),
                ("commit_hash", "hash2"),
            ]),
        ]),
    );
    let text = toml::to_string_pretty(&table).unwrap();
    let data = LockFile {
        dependencies: vec![
            LockedDependency {
                name: ModuleName::new("dep1".to_string()),
                commit_hash: "hash1".to_string(),
                coordinate: LockedCoordinate {
                    url: "example.com/org/dep1".to_owned(),
                    protocol: Some(Protocol::Https),
                },
                specification: RevisionSpecification {
                    revision: Revision::pinned("1.0.0".to_owned()),
                    branch: Some("main".to_owned()),
                },
            },
            LockedDependency {
                name: ModuleName::new("dep2".to_string()),
                commit_hash: "hash2".to_string(),
                coordinate: LockedCoordinate {
                    url: "example.com/org/dep2".to_owned(),
                    protocol: None,
                },
                specification: RevisionSpecification::default(),
            },
        ],
    };
    let parsed = LockFile::from_str(&text).unwrap();
    let formatted = data.to_string().unwrap();
    assert_eq!(parsed, data);
    assert_eq!(formatted, text);
}

#[test]
fn load_lock_file_v1() {
    let mut table = toml::Table::new();
    table.insert("module_name".to_owned(), toml::Value::String("foo".to_owned()));
    let text = toml::to_string_pretty(&table).unwrap();
    assert_eq!(LockFile::from_str(&text), Err(ParseError::OldLockFileVersion(1)));
}

#[test]
fn other_lock_file_versions_are_refused() {
    assert!(matches!(
        LockFile::from_str("version = 3\ndependencies = []\n"),
        Err(ParseError::UnsupportedLockFileVersion(_))
    ));
}

#[test]
fn lock_file_without_dependencies_is_refused() {
    assert_eq!(
        LockFile::from_str("version = 2\n"),
        Err(ParseError::MissingKey("dependencies".to_owned()))
    );
}

#[test]
fn locked_coordinates_show_their_protocol() {
    let c = LockedCoordinate { url: "example.com/org/dep".to_owned(), protocol: Some(Protocol::Ssh) };
    assert_eq!(c.display(), "example.com/org/dep (ssh)");
    let d = LockedCoordinate { url: "example.com/org/dep".to_owned(), protocol: None };
    assert_eq!(d.display(), "example.com/org/dep");
}

#[test]
fn lock_files_read_back_from_their_tables() {
    let lock = LockFile::from_str(
        "version = 2\n[[dependencies]]\nname = \"dep1\"\nurl = \"example.com/org/dep1\"\nprotocol = \"ssh\"\nbranch = \"main\"\ncommit_hash = \"hash1\"\n",
    )
    .unwrap();
    let again = LockFile::from_toml_table(lock.to_toml_table()).unwrap();
    assert!(again.same(&lock));
    assert_eq!(again.dependencies[0].coordinate.protocol, Some(protofetch::model::protofetch::Protocol::Ssh));
}
