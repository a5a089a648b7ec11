pub mod descriptor;
pub mod lock;
pub mod policy;
pub mod resolved;

use vstd::prelude::*;

use crate::model::ParseError;
use crate::text::{opt_view, ascii_lower_seq, chars_of, concat, str_eq, string_of, to_ascii_lower};

pub use descriptor::{Dependency, Descriptor, Rules};
pub use lock::{LockFile, LockedCoordinate, LockedDependency};
pub use policy::{AllowPolicies, ContentRoot, DenyPolicies, FilePolicy, PolicyKind};

verus! {

/// The characters of `https`.
pub open spec fn https_chars() -> Seq<char> {
    seq!['h', 't', 't', 'p', 's']
}

/// The characters of `ssh`.
pub open spec fn ssh_chars() -> Seq<char> {
    seq!['s', 's', 'h']
}

/// The transport used to reach a git repository.
#[derive(PartialEq, Eq, Structural, Hash, Debug, Clone, Copy, PartialOrd, Ord)]
pub enum Protocol {
    Https,
    Ssh,
}

/// The protocol a name stands for, ignoring ASCII case.
pub open spec fn protocol_named(s: Seq<char>) -> Option<Protocol> {
    if ascii_lower_seq(s) == https_chars() {
        Some(Protocol::Https)
    } else if ascii_lower_seq(s) == ssh_chars() {
        Some(Protocol::Ssh)
    } else {
        None
    }
}

/// The name of a protocol.
pub open spec fn protocol_name(p: Protocol) -> Seq<char> {
    match p {
        Protocol::Https => https_chars(),
        Protocol::Ssh => ssh_chars(),
    }
}

/// A protocol's name reads back as that protocol.
pub proof fn lemma_protocol_name_round_trip(p: Protocol)
    ensures
        protocol_named(protocol_name(p)) == Some(p),
{
    assert(ascii_lower_seq(https_chars()) =~= https_chars());
    assert(ascii_lower_seq(ssh_chars()) =~= ssh_chars());
    assert(https_chars() != ssh_chars()) by {
        assert(https_chars().len() != ssh_chars().len());
    }
}

impl Protocol {
    /// Reads a protocol name, ignoring ASCII case.
    pub fn parse(value: &str) -> (r: Result<Protocol, ParseError>)
        ensures
            match protocol_named(value@) {
                Some(p) => r == Ok::<Protocol, ParseError>(p),
                None => r matches Err(ParseError::InvalidProtocol(v)) && v@ == ascii_lower_seq(
                    value@,
                ),
            },
    {
        let lower = to_ascii_lower(chars_of(value).as_slice());
        let https = chars_of("https");
        let ssh = chars_of("ssh");
        proof {
            reveal_strlit("https");
            reveal_strlit("ssh");
            assert(https@ =~= https_chars());
            assert(ssh@ =~= ssh_chars());
        }
        if crate::text::chars_eq(lower.as_slice(), https.as_slice()) {
            Ok(Protocol::Https)
        } else if crate::text::chars_eq(lower.as_slice(), ssh.as_slice()) {
            Ok(Protocol::Ssh)
        } else {
            Err(ParseError::InvalidProtocol(string_of(lower.as_slice())))
        }
    }

    /// The lower-case name of the protocol.
    pub fn as_str(&self) -> (r: &'static str)
        ensures
            r@ == protocol_name(*self),
    {
        proof {
            reveal_strlit("https");
            reveal_strlit("ssh");
        }
        match self {
            Protocol::Https => "https",
            Protocol::Ssh => "ssh",
        }
    }
}

impl std::str::FromStr for Protocol {
    type Err = ParseError;

    fn from_str(value: &str) -> (r: Result<Self, Self::Err>)
        ensures
            match protocol_named(value@) {
                Some(p) => r == Ok::<Protocol, ParseError>(p),
                None => r matches Err(ParseError::InvalidProtocol(v)) && v@ == ascii_lower_seq(value@),
            },
    {
        Protocol::parse(value)
    }
}

/// The `/`-separated parts of `s`, empty ones included.
pub open spec fn split_slash(s: Seq<char>) -> Seq<Seq<char>>
    decreases s.len(),
{
    if s.len() == 0 {
        seq![seq![]]
    } else {
        let p = split_slash(s.drop_last());
        if s.last() == '/' {
            p.push(seq![])
        } else {
            p.update(p.len() - 1, p.last().push(s.last()))
        }
    }
}

proof fn lemma_split_slash_nonempty(s: Seq<char>)
    ensures
        split_slash(s).len() >= 1,
    decreases s.len(),
{
    if s.len() > 0 {
        lemma_split_slash_nonempty(s.drop_last());
    }
}

/// The forge, organization and repository of a url of the form
/// `forge/organization/repository`, with at most one trailing `/`.
pub open spec fn url_parts(url: Seq<char>) -> Option<(Seq<char>, Seq<char>, Seq<char>)> {
    let p = split_slash(url);
    if (p.len() == 3 || (p.len() == 4 && p[3].len() == 0)) && p[0].len() > 0 && p[1].len() > 0
        && p[2].len() > 0 {
        Some((p[0], p[1], p[2]))
    } else {
        None
    }
}

/// A name without `/` is one part.
proof fn lemma_split_slash_single(s: Seq<char>)
    requires
        forall|i: int| 0 <= i < s.len() ==> s[i] != '/',
    ensures
        split_slash(s) == seq![s],
    decreases s.len(),
{
    if s.len() > 0 {
        lemma_split_slash_single(s.drop_last());
        assert(s.drop_last().push(s.last()) =~= s);
    } else {
        assert(s =~= Seq::<char>::empty());
    }
}

/// The parts of `a/b` are those of `a` followed by those of `b`.
proof fn lemma_split_slash_join(a: Seq<char>, b: Seq<char>)
    ensures
        split_slash(a + seq!['/'] + b) == split_slash(a) + split_slash(b),
    decreases b.len(),
{
    let j = a + seq!['/'] + b;
    if b.len() == 0 {
        assert(j.drop_last() =~= a);
        assert(split_slash(a) + split_slash(b) =~= split_slash(a).push(seq![]));
    } else {
        lemma_split_slash_join(a, b.drop_last());
        lemma_split_slash_nonempty(b.drop_last());
        assert(j.drop_last() =~= a + seq!['/'] + b.drop_last());
        assert(j.last() == b.last());
        let x = split_slash(a);
        let y = split_slash(b.drop_last());
        if b.last() == '/' {
            assert((x + y).push(seq![]) =~= x + y.push(seq![]));
        } else {
            assert((x + y).update((x + y).len() - 1, (x + y).last().push(b.last())) =~= x + y.update(
                y.len() - 1,
                y.last().push(b.last()),
            ));
        }
    }
}

/// A coordinate whose parts are non-empty names without `/` reads back from its url.
pub proof fn lemma_url_parts_of_coordinate(c: CoordinateView)
    requires
        c.forge.len() > 0 && c.organization.len() > 0 && c.repository.len() > 0,
        forall|i: int| 0 <= i < c.forge.len() ==> c.forge[i] != '/',
        forall|i: int| 0 <= i < c.organization.len() ==> c.organization[i] != '/',
        forall|i: int| 0 <= i < c.repository.len() ==> c.repository[i] != '/',
    ensures
        url_parts(coordinate_url(c)) == Some((c.forge, c.organization, c.repository)),
{
    let fo = c.forge + seq!['/'] + c.organization;
    lemma_split_slash_join(c.forge, c.organization);
    lemma_split_slash_join(fo, c.repository);
    lemma_split_slash_single(c.forge);
    lemma_split_slash_single(c.organization);
    lemma_split_slash_single(c.repository);
    assert(coordinate_url(c) == fo + seq!['/'] + c.repository);
    assert(split_slash(coordinate_url(c)) =~= seq![c.forge, c.organization, c.repository]);
}

fn split_slash_exec(s: &[char]) -> (r: Vec<Vec<char>>)
    ensures
        crate::path::names_view(r@) == split_slash(s@),
{
    let mut done: Vec<Vec<char>> = Vec::new();
    let mut cur: Vec<char> = Vec::new();
    let mut i: usize = 0;
    while i < s.len()
        invariant
            i <= s.len(),
            crate::path::names_view(done@).push(cur@) == split_slash(s@.take(i as int)),
        decreases s.len() - i,
    {
        let c = s[i];
        let ghost before = crate::path::names_view(done@).push(cur@);
        assert(s@.take(i + 1).drop_last() == s@.take(i as int));
        if c == '/' {
            let ghost cv = cur@;
            let ghost dv = crate::path::names_view(done@);
            done.push(cur);
            cur = Vec::new();
            assert(crate::path::names_view(done@) =~= dv.push(cv));
            assert(crate::path::names_view(done@).push(cur@) =~= before.push(seq![]));
        } else {
            cur.push(c);
            assert(crate::path::names_view(done@).push(cur@) =~= before.update(
                before.len() - 1,
                before.last().push(c),
            ));
        }
        i = i + 1;
    }
    assert(s@.take(s.len() as int) == s@);
    let ghost cv = cur@;
    let ghost dv = crate::path::names_view(done@);
    done.push(cur);
    assert(crate::path::names_view(done@) =~= dv.push(cv));
    done
}

/// Where a module's repository is found: `forge/organization/repository`.
#[derive(Debug, PartialEq, Eq, Hash, PartialOrd, Ord)]
pub struct Coordinate {
    pub forge: String,
    pub organization: String,
    pub repository: String,
    pub protocol: Option<Protocol>,
}

/// The content of a coordinate.
pub struct CoordinateView {
    pub forge: Seq<char>,
    pub organization: Seq<char>,
    pub repository: Seq<char>,
    pub protocol: Option<Protocol>,
}

impl View for Coordinate {
    type V = CoordinateView;

    open spec fn view(&self) -> CoordinateView {
        CoordinateView {
            forge: self.forge@,
            organization: self.organization@,
            repository: self.repository@,
            protocol: self.protocol,
        }
    }
}

impl Clone for Coordinate {
    fn clone(&self) -> (r: Self)
        ensures
            r@ == self@,
    {
        Coordinate {
            forge: self.forge.clone(),
            organization: self.organization.clone(),
            repository: self.repository.clone(),
            protocol: self.protocol,
        }
    }
}

/// `forge/organization/repository` of a coordinate.
pub open spec fn coordinate_url(c: CoordinateView) -> Seq<char> {
    c.forge + seq!['/'] + c.organization + seq!['/'] + c.repository
}

/// The url a coordinate is fetched from.
pub open spec fn git_url(c: CoordinateView, default_protocol: Protocol) -> Seq<char> {
    let p = match c.protocol {
        Some(p) => p,
        None => default_protocol,
    };
    match p {
        Protocol::Https => seq!['h', 't', 't', 'p', 's', ':', '/', '/'] + coordinate_url(c),
        Protocol::Ssh => seq!['s', 's', 'h', ':', '/', '/', 'g', 'i', 't', '@'] + coordinate_url(c)
            + seq!['.', 'g', 'i', 't'],
    }
}

fn slash_join3(a: &String, b: &String, c: &String) -> (r: String)
    ensures
        r@ == a@ + seq!['/'] + b@ + seq!['/'] + c@,
{
    let mut r = a.clone();
    crate::text::push_char(&mut r, '/');
    r.append(b.as_str());
    crate::text::push_char(&mut r, '/');
    r.append(c.as_str());
    r
}

impl Coordinate {
    /// Reads a url of the form `forge/organization/repository`, with at most one trailing `/`.
    pub fn from_url_protocol(url: &str, protocol: Option<Protocol>) -> (r: Result<
        Coordinate,
        ParseError,
    >)
        ensures
            match url_parts(url@) {
                Some((f, o, p)) => r matches Ok(c) && c@ == (CoordinateView {
                    forge: f,
                    organization: o,
                    repository: p,
                    protocol,
                }),
                None => r matches Err(ParseError::MissingUrlComponent(k, u)) && k@ == seq![
                    'f',
                    'o',
                    'r',
                    'g',
                    'e',
                ] && u@ == url@,
            },
    {
        let cs = chars_of(url);
        let parts = split_slash_exec(cs.as_slice());
        proof {
            lemma_split_slash_nonempty(cs@);
        }
        let ghost pv = crate::path::names_view(parts@);
        if (parts.len() == 3 || (parts.len() == 4 && parts[3].len() == 0)) && parts[0].len() > 0
            && parts[1].len() > 0 && parts[2].len() > 0 {
            assert(pv[0] == parts@[0]@ && pv[1] == parts@[1]@ && pv[2] == parts@[2]@);
            Ok(
                Coordinate {
                    forge: string_of(parts[0].as_slice()),
                    organization: string_of(parts[1].as_slice()),
                    repository: string_of(parts[2].as_slice()),
                    protocol,
                },
            )
        } else {
            proof {
                reveal_strlit("forge");
                if pv.len() == 4 {
                    assert(pv[3] == parts@[3]@);
                }
                if pv.len() >= 3 {
                    assert(pv[0] == parts@[0]@ && pv[1] == parts@[1]@ && pv[2] == parts@[2]@);
                }
            }
            Err(ParseError::MissingUrlComponent(String::from_str("forge"), String::from_str(url)))
        }
    }

    /// Reads a url of the form `forge/organization/repository` with no protocol.
    pub fn from_url(url: &str) -> (r: Result<Coordinate, ParseError>)
        ensures
            match url_parts(url@) {
                Some((f, o, p)) => r matches Ok(c) && c@ == (CoordinateView {
                    forge: f,
                    organization: o,
                    repository: p,
                    protocol: None,
                }),
                None => r is Err,
            },
    {
        Self::from_url_protocol(url, None)
    }

    /// The relative path of the coordinate: `forge/organization/repository`.
    pub fn to_path(&self) -> (r: String)
        ensures
            r@ == coordinate_url(self@),
    {
        slash_join3(&self.forge, &self.organization, &self.repository)
    }

    /// The url the repository is fetched from, with the coordinate's own protocol
    /// or else `default_protocol`.
    pub fn to_git_url(&self, default_protocol: Protocol) -> (r: String)
        ensures
            r@ == git_url(self@, default_protocol),
    {
        let p = match self.protocol {
            Some(p) => p,
            None => default_protocol,
        };
        let path = self.to_path();
        proof {
            reveal_strlit("https://");
            reveal_strlit("ssh://git@");
            reveal_strlit(".git");
        }
        match p {
            Protocol::Https => concat("https://", path.as_str()),
            Protocol::Ssh => {
                let r = concat("ssh://git@", path.as_str());
                concat(r.as_str(), ".git")
            },
        }
    }

    /// `forge/organization/repository`.
    pub fn display(&self) -> (r: String)
        ensures
            r@ == coordinate_url(self@),
    {
        self.to_path()
    }

    /// Same forge, organization, repository and protocol.
    pub fn same(&self, other: &Coordinate) -> (r: bool)
        ensures
            r == (self@ == other@),
    {
        let p = match (self.protocol, other.protocol) {
            (None, None) => true,
            (Some(Protocol::Https), Some(Protocol::Https)) => true,
            (Some(Protocol::Ssh), Some(Protocol::Ssh)) => true,
            _ => false,
        };
        p && str_eq(self.forge.as_str(), other.forge.as_str()) && str_eq(
            self.organization.as_str(),
            other.organization.as_str(),
        ) && str_eq(self.repository.as_str(), other.repository.as_str())
    }
}

/// Which revision of a repository is wanted.
#[derive(Debug, PartialEq, Eq, PartialOrd, Ord)]
pub enum Revision {
    /// A tag or commit named by the string.
    Pinned { revision: String },
    /// Whatever the branch, or the default branch, points to.
    Arbitrary,
}

impl View for Revision {
    type V = Option<Seq<char>>;

    open spec fn view(&self) -> Option<Seq<char>> {
        match self {
            Revision::Pinned { revision } => Some(revision@),
            Revision::Arbitrary => None,
        }
    }
}

impl Clone for Revision {
    fn clone(&self) -> (r: Self)
        ensures
            r@ == self@,
    {
        match self {
            Revision::Pinned { revision } => Revision::Pinned { revision: revision.clone() },
            Revision::Arbitrary => Revision::Arbitrary,
        }
    }
}

impl Default for Revision {
    fn default() -> (r: Self)
        ensures
            r@ == None::<Seq<char>>,
    {
        Revision::Arbitrary
    }
}

/// How a revision is written: its name, or `*`.
pub open spec fn revision_text(r: Option<Seq<char>>) -> Seq<char> {
    match r {
        Some(s) => s,
        None => seq!['*'],
    }
}

fn same_opt_str(a: &Option<String>, b: &Option<String>) -> (r: bool)
    ensures
        r == (opt_view(*a) == opt_view(*b)),
{
    match (a, b) {
        (None, None) => true,
        (Some(x), Some(y)) => str_eq(x.as_str(), y.as_str()),
        _ => false,
    }
}

impl Revision {
    /// A pinned revision.
    pub fn pinned(revision: String) -> (r: Revision)
        ensures
            r@ == Some(revision@),
    {
        Revision::Pinned { revision }
    }

    /// No revision is pinned.
    pub fn is_arbitrary(&self) -> (r: bool)
        ensures
            r == (self@ is None),
    {
        match self {
            Revision::Arbitrary => true,
            _ => false,
        }
    }

    /// The revision name, or `*`.
    pub fn display(&self) -> (r: String)
        ensures
            r@ == revision_text(self@),
    {
        match self {
            Revision::Pinned { revision } => revision.clone(),
            Revision::Arbitrary => {
                let mut s = String::new();
                crate::text::push_char(&mut s, '*');
                s
            },
        }
    }

    /// The same revision.
    pub fn same(&self, other: &Revision) -> (r: bool)
        ensures
            r == (self@ == other@),
    {
        match (self, other) {
            (Revision::Arbitrary, Revision::Arbitrary) => true,
            (Revision::Pinned { revision: a }, Revision::Pinned { revision: b }) => str_eq(
                a.as_str(),
                b.as_str(),
            ),
            _ => false,
        }
    }
}

/// A revision and a branch to find it on.
#[derive(Debug, PartialEq, Eq, PartialOrd, Ord)]
pub struct RevisionSpecification {
    pub revision: Revision,
    pub branch: Option<String>,
}

/// The content of a revision specification.
pub struct SpecificationView {
    pub revision: Option<Seq<char>>,
    pub branch: Option<Seq<char>>,
}

impl View for RevisionSpecification {
    type V = SpecificationView;

    open spec fn view(&self) -> SpecificationView {
        SpecificationView { revision: self.revision@, branch: opt_view(self.branch) }
    }
}

impl Clone for RevisionSpecification {
    fn clone(&self) -> (r: Self)
        ensures
            r@ == self@,
    {
        RevisionSpecification { revision: self.revision.clone(), branch: self.branch.clone() }
    }
}

/// How a revision specification is written: `revision`, or `branch@revision`.
pub open spec fn specification_text(s: SpecificationView) -> Seq<char> {
    match s.branch {
        None => revision_text(s.revision),
        Some(b) => b + seq!['@'] + revision_text(s.revision),
    }
}

impl Default for RevisionSpecification {
    fn default() -> (r: Self)
        ensures
            r@ == (SpecificationView { revision: None, branch: None }),
    {
        RevisionSpecification::arbitrary()
    }
}

impl RevisionSpecification {
    /// An arbitrary revision on the default branch.
    pub fn arbitrary() -> (r: RevisionSpecification)
        ensures
            r@ == (SpecificationView { revision: None, branch: None }),
    {
        RevisionSpecification { revision: Revision::Arbitrary, branch: None }
    }

    /// `revision`, or `branch@revision`.
    pub fn display(&self) -> (r: String)
        ensures
            r@ == specification_text(self@),
    {
        let rev = self.revision.display();
        match &self.branch {
            None => rev,
            Some(b) => {
                let mut s = b.clone();
                crate::text::push_char(&mut s, '@');
                s.append(rev.as_str());
                s
            },
        }
    }

    /// The same revision and branch.
    pub fn same(&self, other: &RevisionSpecification) -> (r: bool)
        ensures
            r == (self@ == other@),
    {
        self.revision.same(&other.revision) && same_opt_str(&self.branch, &other.branch)
    }
}

/// The name a module is known by.
#[derive(Debug, PartialEq, Eq, Hash, PartialOrd, Ord)]
pub struct ModuleName(String);

impl View for ModuleName {
    type V = Seq<char>;

    closed spec fn view(&self) -> Seq<char> {
        self.0@
    }
}

impl Clone for ModuleName {
    fn clone(&self) -> (r: Self)
        ensures
            r@ == self@,
    {
        ModuleName(self.0.clone())
    }
}

impl ModuleName {
    /// A module name.
    pub fn new(s: String) -> (r: ModuleName)
        ensures
            r@ == s@,
    {
        ModuleName(s)
    }

    /// A module name copied from a string.
    pub fn from_str(s: &str) -> (r: ModuleName)
        ensures
            r@ == s@,
    {
        ModuleName(String::from_str(s))
    }

    /// The name.
    pub fn as_str(&self) -> (r: &str)
        ensures
            r@ == self@,
    {
        self.0.as_str()
    }

    /// The name, as a string of its own.
    pub fn display(&self) -> (r: String)
        ensures
            r@ == self@,
    {
        self.0.clone()
    }

    /// The same name.
    pub fn same(&self, other: &ModuleName) -> (r: bool)
        ensures
            r == (self@ == other@),
    {
        str_eq(self.0.as_str(), other.0.as_str())
    }
}

/// A coordinate without a protocol of its own is fetched with the default protocol
/// given; one with its own protocol ignores the default.
pub proof fn lemma_git_url_protocol(c: CoordinateView, default_protocol: Protocol, other: Protocol)
    ensures
        c.protocol is None ==> git_url(c, default_protocol) == git_url(
            CoordinateView { protocol: Some(default_protocol), ..c },
            other,
        ),
        c.protocol is Some ==> git_url(c, default_protocol) == git_url(c, other),
{
}

/// Over https the url is `https://` and the coordinate's path; over ssh it is
/// `ssh://git@`, the path and `.git`.
pub proof fn lemma_git_url_shape(c: CoordinateView, default_protocol: Protocol)
    ensures
        (c.protocol == Some(Protocol::Https) || (c.protocol is None && default_protocol == Protocol::Https))
            ==> git_url(c, default_protocol) == seq!['h', 't', 't', 'p', 's', ':', '/', '/'] + c.forge + seq!['/']
            + c.organization + seq!['/'] + c.repository,
        (c.protocol == Some(Protocol::Ssh) || (c.protocol is None && default_protocol == Protocol::Ssh))
            ==> git_url(c, default_protocol) == seq!['s', 's', 'h', ':', '/', '/', 'g', 'i', 't', '@'] + c.forge
            + seq!['/'] + c.organization + seq!['/'] + c.repository + seq!['.', 'g', 'i', 't'],
{
}

} // verus!
