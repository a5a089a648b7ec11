use protofetch::git::hosts::{
    certificate_status, host_matches_patterns, AllowedCredentials, CertificateStatus,
    CredentialAttempts, CredentialChoice, HostPatterns, KnownHost,
};
use protofetch::git::repository::{
    is_full_commit_hash, non_tag_refspecs, optional_tag_refspec, refspecs_for,
    should_retry_without_optional_tags,
};
use protofetch::git::worktree::parse_worktree_list;
use protofetch::git::{GitBackendType, GitOid};
use protofetch::model::protofetch::{Revision, RevisionSpecification};

fn worktree_block(path: &[u8], branch: Option<&[u8]>, head: Option<&[u8]>, detached: bool) -> Vec<u8> {
    let mut block = Vec::new();
    block.extend_from_slice(b"worktree ");
    block.extend_from_slice(path);
    block.push(b'\n');
    if let Some(h) = head {
        block.extend_from_slice(b"HEAD ");
        block.extend_from_slice(h);
        block.push(b'\n');
    }
    if let Some(b) = branch {
        block.extend_from_slice(b"branch refs/heads/");
        block.extend_from_slice(b);
        block.push(b'\n');
    }
    if detached {
        block.extend_from_slice(b"detached\n");
    }
    block
}

fn join_blocks(blocks: &[Vec<u8>]) -> Vec<u8> {
    blocks.join(b"\n\n".as_ref())
}

#[test]
fn find_worktree_by_branch_name() {
    let output = join_blocks(&[
        worktree_block(b"/repos/main", Some(b"main"), Some(b"abc123"), false),
        worktree_block(b"/repos/feature", Some(b"feature-xyz"), Some(b"def456"), false),
    ]);
    let result = parse_worktree_list(&output, "feature-xyz");
    assert_eq!(result, Some(b"/repos/feature".to_vec()));
}

#[test]
fn find_worktree_by_detached_head() {
    let hash = "abc123def456abc123def456abc123def456abc123";
    let output = join_blocks(&[
        worktree_block(b"/repos/main", Some(b"main"), Some(b"deadbeef"), false),
        worktree_block(b"/repos/detached", None, Some(hash.as_bytes()), true),
    ]);
    let result = parse_worktree_list(&output, hash);
    assert_eq!(result, Some(b"/repos/detached".to_vec()));
}

#[test]
fn find_worktree_returns_none_when_not_found() {
    let output = join_blocks(&[worktree_block(b"/repos/main", Some(b"main"), Some(b"abc123"), false)]);
    let result = parse_worktree_list(&output, "nonexistent");
    assert_eq!(result, None);
}

#[test]
fn find_worktree_handles_non_utf8_path() {
    let non_utf8_path: &[u8] = b"/repos/caf\xe9dir";
    let output = join_blocks(&[worktree_block(non_utf8_path, Some(b"my-branch"), Some(b"abc123"), false)]);
    let result = parse_worktree_list(&output, "my-branch");
    assert_eq!(result, Some(non_utf8_path.to_vec()));
}

#[test]
fn head_without_detached_does_not_match() {
    let output = worktree_block(b"/repos/x", None, Some(b"abc"), false);
    assert_eq!(parse_worktree_list(&output, "abc"), None);
}

#[test]
fn missing_optional_tag_with_fallback_refspec_can_retry() {
    let refspecs = vec![
        "+refs/tags/deadbeef:refs/tags/deadbeef".to_owned(),
        "+refs/heads/*:refs/remotes/origin/*".to_owned(),
    ];
    assert!(should_retry_without_optional_tags(
        &refspecs,
        "fatal: couldn't find remote ref refs/tags/deadbeef"
    ));
}

#[test]
fn missing_optional_tag_without_fallback_refspec_does_not_retry() {
    let refspecs = vec!["+refs/tags/v1:refs/tags/v1".to_owned()];
    assert!(!should_retry_without_optional_tags(
        &refspecs,
        "fatal: couldn't find remote ref refs/tags/v1"
    ));
}

#[test]
fn other_failures_are_not_retried() {
    let refspecs = vec![
        "+refs/tags/v1:refs/tags/v1".to_owned(),
        "+refs/heads/*:refs/remotes/origin/*".to_owned(),
    ];
    assert!(!should_retry_without_optional_tags(&refspecs, "fatal: repository not found"));
}

#[test]
fn tag_refspecs_with_or_without_plus() {
    assert!(optional_tag_refspec("+refs/tags/v1:refs/tags/v1"));
    assert!(optional_tag_refspec("refs/tags/v1"));
    assert!(!optional_tag_refspec("+refs/heads/main"));
    assert!(!optional_tag_refspec("++refs/tags/v1"));
}

#[test]
fn retry_keeps_only_non_tag_refspecs() {
    let refspecs = vec![
        "+refs/tags/v1:refs/tags/v1".to_owned(),
        "+refs/heads/*:refs/remotes/origin/*".to_owned(),
        "+refs/heads/main:refs/remotes/origin/main".to_owned(),
    ];
    assert_eq!(
        non_tag_refspecs(&refspecs),
        vec![
            "+refs/heads/*:refs/remotes/origin/*".to_owned(),
            "+refs/heads/main:refs/remotes/origin/main".to_owned()
        ]
    );
}

#[test]
fn refspecs_for_pinned_revision_on_branch() {
    let spec = RevisionSpecification {
        revision: Revision::pinned("1.0.0".to_owned()),
        branch: Some("main".to_owned()),
    };
    assert_eq!(
        refspecs_for(&spec),
        vec![
            "+refs/tags/1.0.0:refs/tags/1.0.0".to_owned(),
            "+refs/heads/*:refs/remotes/origin/*".to_owned(),
            "+refs/heads/main:refs/remotes/origin/main".to_owned(),
        ]
    );
    assert!(refspecs_for(&RevisionSpecification::default()).is_empty());
}

#[test]
fn full_commit_hashes() {
    assert!(is_full_commit_hash("0123456789abcdef0123456789ABCDEF01234567"));
    assert!(!is_full_commit_hash("not-a-commit"));
    assert!(!is_full_commit_hash("0123456789abcdef0123456789abcdef0123456"));
    assert!(!is_full_commit_hash("0123456789abcdef0123456789abcdef0123456g"));
}

#[test]
fn backend_types_by_name() {
    assert_eq!(GitBackendType::parse("LibGit2"), Ok(GitBackendType::Libgit2));
    assert_eq!(GitBackendType::parse("cli"), Ok(GitBackendType::Cli));
    assert_eq!(
        GitBackendType::parse("svn"),
        Err("invalid git backend type: svn".to_owned())
    );
    assert_eq!(GitBackendType::default(), GitBackendType::Libgit2);
}

#[test]
fn git_oids_keep_their_text() {
    let oid = GitOid::from_hex("abc123".to_owned());
    assert_eq!(oid.as_str(), "abc123");
    assert!(oid.same(&GitOid::from_hex("abc123".to_owned())));
    assert!(!oid.same(&GitOid::from_hex("abc124".to_owned())));
}

#[test]
fn host_patterns_match_case_insensitively_and_honour_negation() {
    let patterns = HostPatterns::Patterns(vec!["GitHub.com".to_owned(), "gitlab.com".to_owned()]);
    assert!(host_matches_patterns("github.com", &patterns));
    assert!(!host_matches_patterns("example.com", &patterns));
    let negated = HostPatterns::Patterns(vec!["github.com".to_owned(), "!GITHUB.com".to_owned()]);
    assert!(!host_matches_patterns("github.com", &negated));
    assert!(!host_matches_patterns("github.com", &HostPatterns::HashedName));
}

#[test]
fn known_host_key_is_accepted() {
    let entries = vec![
        KnownHost {
            patterns: HostPatterns::Patterns(vec!["github.com".to_owned()]),
            key: Some(vec![1, 2, 3]),
        },
    ];
    assert_eq!(
        certificate_status("github.com", Some(&[1, 2, 3]), Some(&entries)),
        CertificateStatus::CertificateOk
    );
    assert_eq!(
        certificate_status("github.com", Some(&[1, 2, 4]), Some(&entries)),
        CertificateStatus::CertificatePassthrough
    );
    assert_eq!(
        certificate_status("github.com", None, Some(&entries)),
        CertificateStatus::CertificatePassthrough
    );
    assert_eq!(
        certificate_status("github.com", Some(&[1, 2, 3]), None),
        CertificateStatus::CertificatePassthrough
    );
}

#[test]
fn credentials_are_each_offered_once() {
    let all = AllowedCredentials { username: true, ssh_key: true, user_pass_plaintext: true };
    let mut attempts = CredentialAttempts::new();
    assert_eq!(attempts.next(all), CredentialChoice::Username);
    assert_eq!(attempts.next(all), CredentialChoice::SshAgent);
    assert_eq!(attempts.next(all), CredentialChoice::CredentialHelper);
    assert_eq!(attempts.next(all), CredentialChoice::Exhausted);
    let ssh = AllowedCredentials { username: false, ssh_key: true, user_pass_plaintext: false };
    let mut fresh = CredentialAttempts::new();
    assert_eq!(fresh.next(ssh), CredentialChoice::SshAgent);
    assert_eq!(fresh.next(ssh), CredentialChoice::Exhausted);
}

#[test]
fn no_credential_is_offered_twice() {
    let kinds = [
        AllowedCredentials { username: true, ssh_key: false, user_pass_plaintext: false },
        AllowedCredentials { username: false, ssh_key: true, user_pass_plaintext: true },
        AllowedCredentials { username: true, ssh_key: true, user_pass_plaintext: true },
    ];
    let mut attempts = CredentialAttempts::new();
    let mut offered = Vec::new();
    for _ in 0..3 {
        for k in kinds {
            let c = attempts.next(k);
            if c != CredentialChoice::Exhausted {
                assert!(!offered.contains(&c));
                offered.push(c);
            }
        }
    }
    assert_eq!(offered.len(), 3);
}

#[test]
fn backend_type_from_str_ignores_case() {
    assert_eq!("LibGit2".parse::<GitBackendType>(), Ok(GitBackendType::Libgit2));
    assert_eq!("CLI".parse::<GitBackendType>(), Ok(GitBackendType::Cli));
    assert_eq!("svn".parse::<GitBackendType>(), Err("invalid git backend type: svn".to_string()));
}
