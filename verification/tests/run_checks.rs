use protofetch::cli::{checked_oid, lock_needs_writing, module_file_refusal};
use protofetch::git::GitBackendError;
use protofetch::model::protofetch::LockFile;

#[test]
fn lock_is_written_only_when_it_changed() {
    let empty = LockFile { dependencies: Vec::new() };
    let same = LockFile { dependencies: Vec::new() };
    assert!(lock_needs_writing(None, &empty));
    assert!(!lock_needs_writing(Some(&same), &empty));
}

#[test]
fn existing_module_file_is_refused() {
    assert_eq!(module_file_refusal(true, "/x/protofetch.toml"), Some("File already exists: /x/protofetch.toml".to_string()));
    assert_eq!(module_file_refusal(false, "/x/protofetch.toml"), None);
}

#[test]
fn oid_must_be_hexadecimal() {
    assert!(checked_oid("abc123").is_ok());
    assert!(matches!(checked_oid(""), Err(GitBackendError::InvalidRef(m)) if m == "Invalid commit oid: "));
    assert!(matches!(checked_oid("xyz"), Err(GitBackendError::InvalidRef(m)) if m == "Invalid commit oid: xyz"));
}
