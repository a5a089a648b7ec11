//! Decisions taken while talking to a remote: which credential to offer next, and
//! whether a server's host key is one the known hosts file lists.
use vstd::prelude::*;

use crate::text::{chars_of, spec_lowercase, str_eq, to_lowercase};

verus! {

/// The host patterns of a known hosts entry, as far as they are read here: a list of
/// patterns, or a hashed host name (not matched).
#[derive(Debug, PartialEq, Eq)]
pub enum HostPatterns {
    Patterns(Vec<String>),
    HashedName,
}

/// A pattern that, lower-cased, is `!` followed by the host: the host is excluded.
pub open spec fn excludes(pattern: Seq<char>, host: Seq<char>) -> bool {
    let p = spec_lowercase(pattern);
    p.len() > 0 && p[0] == '!' && p.drop_first() == host
}

/// A pattern that, lower-cased, is not negated and is the host.
pub open spec fn includes(pattern: Seq<char>, host: Seq<char>) -> bool {
    let p = spec_lowercase(pattern);
    !(p.len() > 0 && p[0] == '!') && p == host
}

/// A host matches a list of patterns when no pattern excludes it and some pattern
/// names it; wildcards and hashed names are not supported and match nothing.
pub open spec fn host_matches(host: Seq<char>, patterns: HostPatterns) -> bool {
    match patterns {
        HostPatterns::Patterns(ps) => {
            &&& forall|i: int| 0 <= i < ps@.len() ==> !excludes(#[trigger] ps@[i]@, host)
            &&& exists|i: int| 0 <= i < ps@.len() && includes(#[trigger] ps@[i]@, host)
        },
        HostPatterns::HashedName => false,
    }
}

/// Whether a host matches the patterns of a known hosts entry.
pub fn host_matches_patterns(host: &str, patterns: &HostPatterns) -> (r: bool)
    ensures
        r == host_matches(host@, *patterns),
{
    match patterns {
        HostPatterns::Patterns(ps) => {
            assert(*patterns == HostPatterns::Patterns(*ps));
            let mut found = false;
            let mut i: usize = 0;
            while i < ps.len()
                invariant
                    i <= ps.len(),
                    *patterns == HostPatterns::Patterns(*ps),
                    forall|k: int| 0 <= k < i ==> !excludes(#[trigger] ps@[k]@, host@),
                    found == exists|k: int| 0 <= k < i && includes(#[trigger] ps@[k]@, host@),
                decreases ps.len() - i,
            {
                let lower = to_lowercase(ps[i].as_str());
                let cs = chars_of(lower.as_str());
                if cs.len() > 0 && cs[0] == '!' {
                    let rest = crate::text::string_of_from(cs.as_slice(), 1);
                    assert(rest@ =~= spec_lowercase(ps@[i as int]@).drop_first());
                    if str_eq(rest.as_str(), host) {
                        assert(excludes(ps@[i as int]@, host@));
                        assert(!host_matches(host@, *patterns)) by {
                            assert(*patterns == HostPatterns::Patterns(*ps));
                            assert(!excludes(ps@[i as int]@, host@) == false);
                        }
                        return false;
                    }
                    assert(!includes(ps@[i as int]@, host@));
                } else {
                    if str_eq(lower.as_str(), host) {
                        assert(includes(ps@[i as int]@, host@));
                        found = true;
                    }
                }
                i = i + 1;
            }
            found
        },
        HostPatterns::HashedName => false,
    }
}

/// A known hosts entry: its host patterns, and its public key as bytes when it could be
/// encoded.
pub struct KnownHost {
    pub patterns: HostPatterns,
    pub key: Option<Vec<u8>>,
}

/// What to do with a server's certificate.
#[derive(Debug, Clone, Copy, PartialEq, Eq, Structural)]
pub enum CertificateStatus {
    /// The host key is a known one: accept it.
    CertificateOk,
    /// Leave the decision to the transport.
    CertificatePassthrough,
}

/// The certificate is accepted when it is a host key, the known hosts could be read,
/// and some entry for the host has that key.
pub open spec fn known_host_key(host: Seq<char>, hostkey: Option<Seq<u8>>, entries: Option<Seq<KnownHost>>) -> bool {
    match (hostkey, entries) {
        (Some(k), Some(es)) => exists|i: int|
            0 <= i < es.len() && host_matches(host, #[trigger] es[i].patterns) && (match es[i].key {
                Some(b) => b@ == k,
                None => false,
            }),
        _ => false,
    }
}

fn bytes_equal(a: &[u8], b: &[u8]) -> (r: bool)
    ensures
        r == (a@ == b@),
{
    if a.len() != b.len() {
        return false;
    }
    let mut i: usize = 0;
    while i < a.len()
        invariant
            i <= a.len(),
            a.len() == b.len(),
            forall|k: int| 0 <= k < i ==> a@[k] == b@[k],
        decreases a.len() - i,
    {
        if a[i] != b[i] {
            return false;
        }
        i = i + 1;
    }
    assert(a@ =~= b@);
    true
}

/// The decision on a server's certificate: `hostkey` is its host key if it is one, and
/// `entries` the known hosts entries if they could be read.
pub fn certificate_status(host: &str, hostkey: Option<&[u8]>, entries: Option<&Vec<KnownHost>>) -> (r:
    CertificateStatus)
    ensures
        (r == CertificateStatus::CertificateOk) == known_host_key(
            host@,
            match hostkey {
                Some(k) => Some(k@),
                None => None,
            },
            match entries {
                Some(es) => Some(es@),
                None => None,
            },
        ),
{
    match (hostkey, entries) {
        (Some(k), Some(es)) => {
            let mut i: usize = 0;
            while i < es.len()
                invariant
                    i <= es.len(),
                    hostkey == Some(k),
                    entries == Some(es),
                    forall|j: int|
                        0 <= j < i ==> !(host_matches(host@, #[trigger] es@[j].patterns) && (match es@[j].key {
                            Some(b) => b@ == k@,
                            None => false,
                        })),
                decreases es.len() - i,
            {
                if host_matches_patterns(host, &es[i].patterns) {
                    match &es[i].key {
                        Some(b) => {
                            if bytes_equal(b.as_slice(), k) {
                                assert(es@[i as int] == es[i as int]);
                                assert(host_matches(host@, es@[i as int].patterns) && (match es@[i as int].key {
                                    Some(b) => b@ == k@,
                                    None => false,
                                }));
                                return CertificateStatus::CertificateOk;
                            }
                        },
                        None => {},
                    }
                }
                i = i + 1;
            }
            CertificateStatus::CertificatePassthrough
        },
        _ => CertificateStatus::CertificatePassthrough,
    }
}

/// The kinds of credential a server accepts.
#[derive(Debug, Clone, Copy, PartialEq, Eq, Structural)]
pub struct AllowedCredentials {
    pub username: bool,
    pub ssh_key: bool,
    pub user_pass_plaintext: bool,
}

/// The credential to offer.
#[derive(Debug, Clone, Copy, PartialEq, Eq, Structural)]
pub enum CredentialChoice {
    /// The user name `git`.
    Username,
    /// A key from the SSH agent.
    SshAgent,
    /// What git's credential helper gives.
    CredentialHelper,
    /// No valid authentication is left.
    Exhausted,
}

/// The credentials offered so far in one fetch: each kind is offered once.
#[derive(Debug, Clone, Copy, PartialEq, Eq, Structural)]
pub struct CredentialAttempts {
    pub tried_username: bool,
    pub tried_agent: bool,
    pub tried_helper: bool,
}

/// The next credential to offer: a user name if asked and not yet offered, else an
/// agent key, else the credential helper's; nothing once these are used up.
pub open spec fn credential_step(s: CredentialAttempts, allowed: AllowedCredentials) -> (
    CredentialChoice,
    CredentialAttempts,
) {
    if allowed.username && !s.tried_username {
        (CredentialChoice::Username, CredentialAttempts { tried_username: true, ..s })
    } else if allowed.ssh_key && !s.tried_agent {
        (CredentialChoice::SshAgent, CredentialAttempts { tried_agent: true, ..s })
    } else if allowed.user_pass_plaintext && !s.tried_helper {
        (CredentialChoice::CredentialHelper, CredentialAttempts { tried_helper: true, ..s })
    } else {
        (CredentialChoice::Exhausted, s)
    }
}

impl CredentialAttempts {
    /// The record before anything is offered.
    pub open spec fn new_spec() -> CredentialAttempts {
        CredentialAttempts { tried_username: false, tried_agent: false, tried_helper: false }
    }

    /// Nothing offered yet.
    pub fn new() -> (r: CredentialAttempts)
        ensures
            r == Self::new_spec(),
    {
        CredentialAttempts { tried_username: false, tried_agent: false, tried_helper: false }
    }

    /// Chooses the next credential to offer and records it as offered.
    pub fn next(&mut self, allowed: AllowedCredentials) -> (r: CredentialChoice)
        ensures
            (r, *final(self)) == credential_step(*old(self), allowed),
    {
        if allowed.username && !self.tried_username {
            self.tried_username = true;
            CredentialChoice::Username
        } else if allowed.ssh_key && !self.tried_agent {
            self.tried_agent = true;
            CredentialChoice::SshAgent
        } else if allowed.user_pass_plaintext && !self.tried_helper {
            self.tried_helper = true;
            CredentialChoice::CredentialHelper
        } else {
            CredentialChoice::Exhausted
        }
    }
}

/// The credentials offered over a run of requests, each with the kinds the server then
/// accepted: the choices made, and the record left.
pub open spec fn credential_run(s: CredentialAttempts, asked: Seq<AllowedCredentials>) -> (
    Seq<CredentialChoice>,
    CredentialAttempts,
)
    decreases asked.len(),
{
    if asked.len() == 0 {
        (seq![], s)
    } else {
        let (choices, t) = credential_run(s, asked.drop_last());
        let (c, u) = credential_step(t, asked.last());
        (choices.push(c), u)
    }
}

/// Over any run of requests, starting from nothing offered, each kind of credential is
/// offered at most once, and only when the server accepts that kind.
pub proof fn lemma_credentials_offered_once(asked: Seq<AllowedCredentials>)
    ensures
        ({
            let choices = credential_run(CredentialAttempts::new_spec(), asked).0;
            &&& choices.len() == asked.len()
            &&& forall|i: int, j: int|
                0 <= i < j < choices.len() && choices[i] == choices[j] ==> choices[i] == CredentialChoice::Exhausted
            &&& forall|i: int|
                0 <= i < choices.len() ==> match #[trigger] choices[i] {
                    CredentialChoice::Username => asked[i].username,
                    CredentialChoice::SshAgent => asked[i].ssh_key,
                    CredentialChoice::CredentialHelper => asked[i].user_pass_plaintext,
                    CredentialChoice::Exhausted => true,
                }
        }),
    decreases asked.len(),
{
    lemma_credential_run(CredentialAttempts::new_spec(), asked);
}

/// The record after a run holds what was offered in it, and an offered kind was not
/// yet recorded when it was offered.
proof fn lemma_credential_run(s: CredentialAttempts, asked: Seq<AllowedCredentials>)
    ensures
        ({
            let (choices, t) = credential_run(s, asked);
            &&& choices.len() == asked.len()
            &&& (s.tried_username ==> t.tried_username) && (s.tried_agent ==> t.tried_agent) && (s.tried_helper
                ==> t.tried_helper)
            &&& forall|i: int| 0 <= i < choices.len() && #[trigger] choices[i] == CredentialChoice::Username ==> t.tried_username && !s.tried_username
            &&& forall|i: int| 0 <= i < choices.len() && #[trigger] choices[i] == CredentialChoice::SshAgent ==> t.tried_agent && !s.tried_agent
            &&& forall|i: int| 0 <= i < choices.len() && #[trigger] choices[i] == CredentialChoice::CredentialHelper ==> t.tried_helper && !s.tried_helper
            &&& forall|i: int, j: int|
                0 <= i < j < choices.len() && choices[i] == choices[j] ==> choices[i] == CredentialChoice::Exhausted
            &&& forall|i: int|
                0 <= i < choices.len() ==> match #[trigger] choices[i] {
                    CredentialChoice::Username => asked[i].username,
                    CredentialChoice::SshAgent => asked[i].ssh_key,
                    CredentialChoice::CredentialHelper => asked[i].user_pass_plaintext,
                    CredentialChoice::Exhausted => true,
                }
        }),
    decreases asked.len(),
{
    if asked.len() > 0 {
        let prefix = asked.drop_last();
        lemma_credential_run(s, prefix);
        let (choices, t) = credential_run(s, prefix);
        let (c, u) = credential_step(t, asked.last());
        let all = choices.push(c);
        assert forall|i: int| 0 <= i < all.len() - 1 implies all[i] == choices[i] && asked[i] == prefix[i] by {}
    }
}

} // verus!
