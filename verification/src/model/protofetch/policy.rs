//! Content roots and the allow and deny policies that select proto files.
use vstd::prelude::*;

use crate::model::ParseError;
use crate::path::{
    add_leading_slash, has_root, path_starts_with, path_starts_with_exec, same_path,
    same_path_exec, strip_leading_slashes, strip_leading_slashes_exec, with_leading_slash,
};
use crate::text::{clone_strings, chars_of, contains, contains_seq, ends_with, is_prefix, is_suffix, starts_with, string_of, views};

verus! {

/// A directory of a repository that proto package paths are relative to.
#[derive(Debug, PartialEq, Eq, Hash, PartialOrd, Ord)]
pub struct ContentRoot {
    pub value: String,
}

impl Clone for ContentRoot {
    fn clone(&self) -> (r: Self)
        ensures
            r.value@ == self.value@,
    {
        ContentRoot { value: self.value.clone() }
    }
}

impl ContentRoot {
    /// A content root, relative to the repository: leading `/` are dropped.
    pub fn from_string(s: &str) -> (r: ContentRoot)
        ensures
            r.value@ == strip_leading_slashes(s@),
    {
        let cs = chars_of(s);
        let v = strip_leading_slashes_exec(cs.as_slice());
        ContentRoot { value: string_of(v.as_slice()) }
    }
}

/// The four forms of a file policy rule.
#[derive(Debug, Clone, Copy, PartialEq, Eq, Structural, Hash, PartialOrd, Ord)]
pub enum PolicyKind {
    /// `/path/to/file.proto`
    File,
    /// `/prefix/*`
    Prefix,
    /// `*/subpath/*`
    SubPath,
    /// `re://pattern`: a regular expression found anywhere in the path
    Regex,
}

/// A rule selecting files by exact path, by leading directories, by a part of the path
/// or by a regular expression (whose pattern the path field holds).
#[derive(Debug, PartialEq, Eq, Hash, PartialOrd, Ord)]
pub struct FilePolicy {
    pub kind: PolicyKind,
    pub path: String,
}

impl View for FilePolicy {
    type V = (PolicyKind, Seq<char>);

    open spec fn view(&self) -> (PolicyKind, Seq<char>) {
        (self.kind, self.path@)
    }
}

impl Clone for FilePolicy {
    fn clone(&self) -> (r: Self)
        ensures
            r@ == self@,
    {
        FilePolicy { kind: self.kind, path: self.path.clone() }
    }
}

/// The views of a sequence of policies.
pub open spec fn policy_views(v: Seq<FilePolicy>) -> Seq<(PolicyKind, Seq<char>)> {
    v.map_values(|p: FilePolicy| p@)
}

/// The characters of `*/`.
pub open spec fn star_slash() -> Seq<char> {
    seq!['*', '/']
}

/// The characters of `/*`.
pub open spec fn slash_star() -> Seq<char> {
    seq!['/', '*']
}

/// The characters of `.proto`.
pub open spec fn proto_ext() -> Seq<char> {
    seq!['.', 'p', 'r', 'o', 't', 'o']
}

/// The characters of `re://`.
pub open spec fn regex_marker() -> Seq<char> {
    seq!['r', 'e', ':', '/', '/']
}

/// The regex crate compiles `pattern` (`regex::Regex::new` succeeds).
pub uninterp spec fn regex_compiles(pattern: Seq<char>) -> bool;

/// The regex compiled from `pattern` matches somewhere in `text`
/// (`regex::Regex::is_match`).
pub uninterp spec fn regex_is_match(pattern: Seq<char>, text: Seq<char>) -> bool;

/// Whether `regex::Regex::new` accepts the pattern: it fails on an invalid pattern and
/// on one whose compiled form exceeds the default size limit.
#[verifier::external_body]
fn regex_check(pattern: &str) -> (r: bool)
    ensures
        r == regex_compiles(pattern@),
{
    regex::Regex::new(pattern).is_ok()
}

/// `regex::Regex::is_match` of the regex compiled from `pattern`: whether it matches
/// anywhere in `text`.
#[verifier::external_body]
fn regex_search(pattern: &str, text: &str) -> (r: bool)
    requires
        regex_compiles(pattern@),
    ensures
        r == regex_is_match(pattern@, text@),
{
    match regex::Regex::new(pattern) {
        Ok(re) => re.is_match(text),
        Err(_) => false,
    }
}

/// The policy a rule stands for: `re://pattern` a regular expression, when it compiles;
/// `*/sub/*` keeps `/sub`, `prefix/*` keeps `prefix` and `file.proto` keeps the file,
/// the last two with a leading `/`.
pub open spec fn policy_from_rule(s: Seq<char>) -> Option<(PolicyKind, Seq<char>)> {
    if is_prefix(regex_marker(), s) {
        if regex_compiles(s.skip(5)) {
            Some((PolicyKind::Regex, s.skip(5)))
        } else {
            None
        }
    } else if is_prefix(star_slash(), s) && is_suffix(slash_star(), s) {
        Some((PolicyKind::SubPath, s.subrange(1, s.len() - 2)))
    } else if is_suffix(slash_star(), s) {
        Some((PolicyKind::Prefix, with_leading_slash(s.subrange(0, s.len() - 2))))
    } else if is_suffix(proto_ext(), s) {
        Some((PolicyKind::File, with_leading_slash(s)))
    } else {
        None
    }
}

/// A policy selects the (absolute) path `p`.
pub open spec fn policy_matches(pol: (PolicyKind, Seq<char>), p: Seq<char>) -> bool {
    match pol.0 {
        PolicyKind::File => same_path(p, pol.1),
        PolicyKind::Prefix => path_starts_with(p, pol.1),
        PolicyKind::SubPath => contains_seq(p, pol.1),
        PolicyKind::Regex => regex_compiles(pol.1) && regex_is_match(pol.1, p),
    }
}

/// One copy of `p` for each policy that selects it.
pub open spec fn matches_seq(pols: Seq<(PolicyKind, Seq<char>)>, p: Seq<char>) -> Seq<Seq<char>>
    decreases pols.len(),
{
    if pols.len() == 0 {
        seq![]
    } else {
        matches_seq(pols.drop_last(), p) + if policy_matches(pols.last(), p) {
            seq![p]
        } else {
            seq![]
        }
    }
}

/// Each path made absolute, repeated once for each policy that selects it.
pub open spec fn apply_rec(pols: Seq<(PolicyKind, Seq<char>)>, paths: Seq<Seq<char>>) -> Seq<
    Seq<char>,
>
    decreases paths.len(),
{
    if paths.len() == 0 {
        seq![]
    } else {
        apply_rec(pols, paths.drop_last()) + matches_seq(pols, with_leading_slash(paths.last()))
    }
}

/// The result of applying policies to paths: the paths themselves when there is no policy.
pub open spec fn apply_policies(pols: Seq<(PolicyKind, Seq<char>)>, paths: Seq<Seq<char>>) -> Seq<
    Seq<char>,
> {
    if pols.len() == 0 {
        paths
    } else {
        apply_rec(pols, paths)
    }
}

/// Some policy selects `p`.
pub open spec fn any_matches(pols: Seq<(PolicyKind, Seq<char>)>, p: Seq<char>) -> bool {
    exists|k: int| 0 <= k < pols.len() && policy_matches(#[trigger] pols[k], p)
}

/// Two policies are the same for a set of policies: same kind, and the same path, or
/// for regular expressions the same pattern.
pub open spec fn same_policy(a: (PolicyKind, Seq<char>), b: (PolicyKind, Seq<char>)) -> bool {
    a.0 == b.0 && if a.0 == PolicyKind::Regex {
        a.1 == b.1
    } else {
        same_path(a.1, b.1)
    }
}

/// No two policies are the same.
pub open spec fn distinct_policies(s: Seq<(PolicyKind, Seq<char>)>) -> bool {
    forall|i: int, j: int|
        0 <= i < j < s.len() ==> !same_policy(#[trigger] s[i], #[trigger] s[j])
}

/// The policy at `i` has no later equal.
pub open spec fn last_of_kind(s: Seq<(PolicyKind, Seq<char>)>, i: int) -> bool {
    forall|j: int| i < j < s.len() ==> !same_policy(s[i], #[trigger] s[j])
}

/// The first `n` policies, each kept only when no later one is the same.
pub open spec fn dedup_upto(s: Seq<(PolicyKind, Seq<char>)>, n: int) -> Seq<(PolicyKind, Seq<char>)>
    decreases n,
{
    if n <= 0 {
        seq![]
    } else {
        dedup_upto(s, n - 1) + if last_of_kind(s, n - 1) {
            seq![s[n - 1]]
        } else {
            seq![]
        }
    }
}

/// A set of policies: each kept only when no later one is the same.
pub open spec fn dedup_policies(s: Seq<(PolicyKind, Seq<char>)>) -> Seq<(PolicyKind, Seq<char>)> {
    dedup_upto(s, s.len() as int)
}

proof fn lemma_dedup_upto(s: Seq<(PolicyKind, Seq<char>)>, n: int)
    requires
        0 <= n <= s.len(),
    ensures
        forall|x: (PolicyKind, Seq<char>)|
            dedup_upto(s, n).contains(x) ==> exists|i: int|
                0 <= i < n && s[i] == x && last_of_kind(s, i),
        forall|i: int, j: int|
            0 <= i < j < dedup_upto(s, n).len() ==> !same_policy(
                #[trigger] dedup_upto(s, n)[i],
                #[trigger] dedup_upto(s, n)[j],
            ),
    decreases n,
{
    if n > 0 {
        lemma_dedup_upto(s, n - 1);
        let d = dedup_upto(s, n - 1);
        if last_of_kind(s, n - 1) {
            let e = d.push(s[n - 1]);
            assert(dedup_upto(s, n) =~= e);
            assert forall|x: (PolicyKind, Seq<char>)| e.contains(x) implies exists|i: int|
                0 <= i < n && s[i] == x && last_of_kind(s, i) by {
                let k = choose|k: int| 0 <= k < e.len() && e[k] == x;
                if k < d.len() {
                    assert(d.contains(x));
                }
            }
            assert forall|i: int, j: int| 0 <= i < j < e.len() implies !same_policy(
                #[trigger] e[i],
                #[trigger] e[j],
            ) by {
                if j == e.len() - 1 {
                    assert(d.contains(e[i]));
                    let m = choose|m: int| 0 <= m < n - 1 && s[m] == e[i] && last_of_kind(s, m);
                    assert(!same_policy(s[m], s[n - 1]));
                }
            }
        } else {
            assert(dedup_upto(s, n) =~= d);
            assert forall|x: (PolicyKind, Seq<char>)| dedup_upto(s, n).contains(x) implies exists|
                i: int,
            | 0 <= i < n && s[i] == x && last_of_kind(s, i) by {
                assert(d.contains(x));
            }
        }
    }
}

/// A set of distinct policies.
pub proof fn lemma_dedup_distinct(s: Seq<(PolicyKind, Seq<char>)>)
    ensures
        distinct_policies(dedup_policies(s)),
{
    lemma_dedup_upto(s, s.len() as int);
}

fn policy_same_exec(a: &FilePolicy, b: &FilePolicy) -> (r: bool)
    ensures
        r == same_policy(a@, b@),
{
    a.kind == b.kind && {
        let x = chars_of(a.path.as_str());
        let y = chars_of(b.path.as_str());
        match a.kind {
            PolicyKind::Regex => crate::text::chars_eq(x.as_slice(), y.as_slice()),
            _ => same_path_exec(x.as_slice(), y.as_slice()),
        }
    }
}

fn dedup_exec(s: &[FilePolicy]) -> (r: Vec<FilePolicy>)
    ensures
        policy_views(r@) == dedup_policies(policy_views(s@)),
{
    let ghost sv = policy_views(s@);
    let mut r: Vec<FilePolicy> = Vec::new();
    let mut i: usize = 0;
    while i < s.len()
        invariant
            i <= s.len(),
            sv == policy_views(s@),
            policy_views(r@) == dedup_upto(sv, i as int),
        decreases s.len() - i,
    {
        let mut later = false;
        let mut j: usize = i + 1;
        while j < s.len()
            invariant
                i < s.len(),
                i + 1 <= j <= s.len(),
                sv == policy_views(s@),
                later == exists|k: int| i < k < j && same_policy(sv[i as int], #[trigger] sv[k]),
            decreases s.len() - j,
        {
            assert(sv[j as int] == s@[j as int]@);
            assert(sv[i as int] == s@[i as int]@);
            if policy_same_exec(&s[i], &s[j]) {
                later = true;
            }
            j = j + 1;
        }
        assert(later == !last_of_kind(sv, i as int));
        if !later {
            let p = s[i].clone();
            r.push(p);
            assert(policy_views(r@) =~= dedup_upto(sv, i as int) + seq![sv[i as int]]);
        }
        i = i + 1;
        assert(dedup_upto(sv, i as int) == dedup_upto(sv, i - 1) + if last_of_kind(sv, i - 1) {
            seq![sv[i - 1]]
        } else {
            seq![]
        });
    }
    r
}

fn policy_matches_exec(pol: &FilePolicy, p: &[char]) -> (r: bool)
    ensures
        r == policy_matches(pol@, p@),
{
    let pp = chars_of(pol.path.as_str());
    match pol.kind {
        PolicyKind::File => same_path_exec(p, pp.as_slice()),
        PolicyKind::Prefix => path_starts_with_exec(p, pp.as_slice()),
        PolicyKind::SubPath => contains(p, pp.as_slice()),
        PolicyKind::Regex => regex_check(pol.path.as_str()) && regex_search(pol.path.as_str(), string_of(p).as_str()),
    }
}

proof fn lemma_matches_seq(pols: Seq<(PolicyKind, Seq<char>)>, p: Seq<char>)
    ensures
        (matches_seq(pols, p).len() > 0) == any_matches(pols, p),
        forall|k: int| 0 <= k < matches_seq(pols, p).len() ==> matches_seq(pols, p)[k] == p,
    decreases pols.len(),
{
    if pols.len() > 0 {
        lemma_matches_seq(pols.drop_last(), p);
        if any_matches(pols.drop_last(), p) {
            let k = choose|k: int|
                0 <= k < pols.drop_last().len() && policy_matches(pols.drop_last()[k], p);
            assert(policy_matches(pols[k], p));
        }
        if any_matches(pols, p) {
            let k = choose|k: int| 0 <= k < pols.len() && policy_matches(pols[k], p);
            if k < pols.len() - 1 {
                assert(policy_matches(pols.drop_last()[k], p));
            }
        }
    }
}

impl FilePolicy {
    /// A policy.
    pub fn new(kind: PolicyKind, path: String) -> (r: FilePolicy)
        ensures
            r@ == (kind, path@),
    {
        FilePolicy { kind, path }
    }

    /// Reads a policy rule: `re://pattern`, `*/sub/*`, `prefix/*` or `path/file.proto`.
    pub fn try_from_str(s: &str) -> (r: Result<FilePolicy, ParseError>)
        ensures
            match policy_from_rule(s@) {
                Some(p) => r matches Ok(q) && q@ == p,
                None => r matches Err(ParseError::ParsePolicyRuleError(t)) && t@ == s@,
            },
    {
        let cs = chars_of(s);
        let ss: [char; 2] = ['*', '/'];
        let st: [char; 2] = ['/', '*'];
        let ext: [char; 6] = ['.', 'p', 'r', 'o', 't', 'o'];
        assert(ss@ == star_slash());
        assert(st@ == slash_star());
        assert(ext@ == proto_ext());
        let re: [char; 5] = ['r', 'e', ':', '/', '/'];
        assert(re@ == regex_marker());
        if starts_with(cs.as_slice(), re.as_slice()) {
            let pattern = crate::text::string_of_from(cs.as_slice(), 5);
            if regex_check(pattern.as_str()) {
                return Ok(FilePolicy { kind: PolicyKind::Regex, path: pattern });
            } else {
                return Err(ParseError::ParsePolicyRuleError(String::from_str(s)));
            }
        }
        if starts_with(cs.as_slice(), ss.as_slice()) && ends_with(
            cs.as_slice(),
            st.as_slice(),
        ) {
            let inner = slice_range(cs.as_slice(), 1, cs.len() - 2);
            Ok(FilePolicy { kind: PolicyKind::SubPath, path: string_of(inner.as_slice()) })
        } else if ends_with(cs.as_slice(), st.as_slice()) {
            let head = slice_range(cs.as_slice(), 0, cs.len() - 2);
            let path = add_leading_slash(head.as_slice());
            Ok(FilePolicy::new(PolicyKind::Prefix, string_of(path.as_slice())))
        } else if ends_with(cs.as_slice(), ext.as_slice()) {
            let path = add_leading_slash(cs.as_slice());
            Ok(FilePolicy::new(PolicyKind::File, string_of(path.as_slice())))
        } else {
            Err(ParseError::ParsePolicyRuleError(String::from_str(s)))
        }
    }

    /// `p`, made absolute by a leading `/` where it has none.
    pub fn add_leading_slash(p: &str) -> (r: String)
        ensures
            r@ == with_leading_slash(p@),
    {
        let cs = chars_of(p);
        let v = add_leading_slash(cs.as_slice());
        string_of(v.as_slice())
    }

    /// Each path made absolute, once for each policy that selects it; the paths
    /// unchanged when there is no policy.
    pub fn apply_file_policies(policies: &[FilePolicy], paths: &[String]) -> (r: Vec<String>)
        ensures
            views(r@) == apply_policies(policy_views(policies@), views(paths@)),
    {
        let ghost pv = policy_views(policies@);
        let ghost xs = views(paths@);
        if policies.len() == 0 {
            return crate::text::clone_strings(paths);
        }
        let mut result: Vec<String> = Vec::new();
        let mut i: usize = 0;
        while i < paths.len()
            invariant
                i <= paths.len(),
                pv == policy_views(policies@),
                xs == views(paths@),
                views(result@) == apply_rec(pv, xs.take(i as int)),
            decreases paths.len() - i,
        {
            let pc = chars_of(paths[i].as_str());
            let lead_v = add_leading_slash(pc.as_slice());
            let lead = string_of(lead_v.as_slice());
            let ghost base = views(result@);
            let mut j: usize = 0;
            while j < policies.len()
                invariant
                    i < paths.len(),
                    j <= policies.len(),
                    pv == policy_views(policies@),
                    lead@ == with_leading_slash(xs[i as int]),
                    lead_v@ == lead@,
                    views(result@) == base + matches_seq(pv.take(j as int), lead@),
                decreases policies.len() - j,
            {
                assert(pv[j as int] == policies@[j as int]@);
                let m = policy_matches_exec(&policies[j], lead_v.as_slice());
                let ghost before = views(result@);
                if m {
                    let c = lead.clone();
                    result.push(c);
                    assert(views(result@) =~= before.push(lead@));
                }
                j = j + 1;
                assert(pv.take(j as int).drop_last() == pv.take(j - 1));
                assert(pv.take(j as int).last() == pv[j - 1]);
                assert(matches_seq(pv.take(j as int), lead@) == matches_seq(pv.take(j - 1), lead@)
                    + if policy_matches(pv[j - 1], lead@) {
                    seq![lead@]
                } else {
                    seq![]
                });
                assert(views(result@) =~= base + matches_seq(pv.take(j as int), lead@));
            }
            assert(pv.take(policies.len() as int) == pv);
            i = i + 1;
            assert(xs.take(i as int).drop_last() == xs.take(i - 1));
            assert(views(result@) =~= apply_rec(pv, xs.take(i as int)));
        }
        assert(xs.take(paths.len() as int) == xs);
        result
    }
}

fn slice_range(s: &[char], from: usize, to: usize) -> (r: Vec<char>)
    requires
        from <= to <= s.len(),
    ensures
        r@ == s@.subrange(from as int, to as int),
{
    let mut r: Vec<char> = Vec::new();
    let mut k: usize = from;
    while k < to
        invariant
            from <= k <= to <= s.len(),
            r@ == s@.subrange(from as int, k as int),
        decreases to - k,
    {
        r.push(s[k]);
        k = k + 1;
        assert(s@.subrange(from as int, k as int) == s@.subrange(from as int, k - 1).push(
            s@[k - 1],
        ));
    }
    r
}

/// The policies of a dependency that select the files to use; none means all files.
#[derive(Debug, PartialEq, Eq, Hash, PartialOrd, Ord)]
pub struct AllowPolicies {
    policies: Vec<FilePolicy>,
}

impl AllowPolicies {
    /// The policies, as a set: no two are the same.
    #[verifier::type_invariant]
    spec fn wf(self) -> bool {
        distinct_policies(policy_views(self.policies@))
    }

    /// The policies.
    pub closed spec fn policies(&self) -> Seq<(PolicyKind, Seq<char>)> {
        policy_views(self.policies@)
    }

    /// The set of the given policies.
    pub fn new(policies: Vec<FilePolicy>) -> (r: AllowPolicies)
        ensures
            r.policies() == dedup_policies(policy_views(policies@)),
            distinct_policies(r.policies()),
    {
        let v = dedup_exec(policies.as_slice());
        proof {
            lemma_dedup_distinct(policy_views(policies@));
        }
        AllowPolicies { policies: v }
    }

    /// No policy at all.
    pub fn empty() -> (r: AllowPolicies)
        ensures
            r.policies() == Seq::<(PolicyKind, Seq<char>)>::empty(),
    {
        let r = AllowPolicies { policies: Vec::new() };
        assert(policy_views(r.policies@) =~= Seq::<(PolicyKind, Seq<char>)>::empty());
        r
    }

    /// A copy.
    pub fn duplicate(&self) -> (r: AllowPolicies)
        ensures
            r.policies() == self.policies(),
    {
        proof {
            use_type_invariant(self);
        }
        let v = self.policies.clone();
        assert(policy_views(v@) =~= policy_views(self.policies@)) by {
            assert forall|k: int| 0 <= k < v@.len() implies v@[k]@ == self.policies@[k]@ by {
                assert(cloned::<FilePolicy>(self.policies@[k], v@[k]));
            }
        }
        AllowPolicies { policies: v }
    }

    /// The policies, as a slice.
    pub fn as_slice(&self) -> (r: &[FilePolicy])
        ensures
            policy_views(r@) == self.policies(),
            distinct_policies(self.policies()),
    {
        proof {
            use_type_invariant(self);
        }
        self.policies.as_slice()
    }

    /// A file is allowed when there is no policy or some policy selects it (made absolute).
    pub fn should_allow_file(allow_policies: &Self, file: &str) -> (r: bool)
        ensures
            r == (allow_policies.policies().len() == 0 || any_matches(
                allow_policies.policies(),
                with_leading_slash(file@),
            )),
    {
        if allow_policies.policies.len() == 0 {
            true
        } else {
            let mut one: Vec<String> = Vec::new();
            one.push(String::from_str(file));
            let res = Self::filter(allow_policies, one.as_slice());
            proof {
                let xs = views(one@);
                assert(xs.drop_last() =~= Seq::<Seq<char>>::empty());
                assert(xs.last() == file@);
                assert(apply_rec(allow_policies.policies(), xs.drop_last()) == Seq::<Seq<char>>::empty());
                assert(apply_rec(allow_policies.policies(), xs) =~= matches_seq(
                    allow_policies.policies(),
                    with_leading_slash(file@),
                ));
                lemma_matches_seq(allow_policies.policies(), with_leading_slash(file@));
            }
            res.len() != 0
        }
    }

    /// The given paths, made absolute, once for each policy that selects them.
    pub fn filter(allow_policies: &Self, paths: &[String]) -> (r: Vec<String>)
        ensures
            views(r@) == apply_policies(allow_policies.policies(), views(paths@)),
    {
        FilePolicy::apply_file_policies(allow_policies.policies.as_slice(), paths)
    }
}

impl Default for AllowPolicies {
    fn default() -> (r: AllowPolicies)
        ensures
            r.policies() == Seq::<(PolicyKind, Seq<char>)>::empty(),
    {
        AllowPolicies::empty()
    }
}

/// `paths` without those that denote the same path as one of `removed`.
pub open spec fn keep_not_in(paths: Seq<Seq<char>>, removed: Seq<Seq<char>>) -> Seq<Seq<char>>
    decreases paths.len(),
{
    if paths.len() == 0 {
        seq![]
    } else {
        keep_not_in(paths.drop_last(), removed) + if exists|k: int|
            0 <= k < removed.len() && same_path(#[trigger] removed[k], paths.last()) {
            seq![]
        } else {
            seq![paths.last()]
        }
    }
}

/// What deny policies leave of a list of files.
pub open spec fn deny_spec(pols: Seq<(PolicyKind, Seq<char>)>, files: Seq<Seq<char>>) -> Seq<
    Seq<char>,
> {
    if pols.len() == 0 {
        files
    } else {
        keep_not_in(files, apply_rec(pols, files))
    }
}

/// The policies of a dependency that exclude files from it.
#[derive(Debug, PartialEq, Eq, Hash, PartialOrd, Ord)]
pub struct DenyPolicies {
    policies: Vec<FilePolicy>,
}

fn in_paths(removed: &Vec<String>, p: &[char]) -> (r: bool)
    ensures
        r == exists|k: int| 0 <= k < views(removed@).len() && same_path(
            #[trigger] views(removed@)[k],
            p@,
        ),
{
    let ghost rv = views(removed@);
    let mut k: usize = 0;
    while k < removed.len()
        invariant
            k <= removed.len(),
            rv == views(removed@),
            forall|m: int| 0 <= m < k ==> !same_path(#[trigger] rv[m], p@),
        decreases removed.len() - k,
    {
        let x = chars_of(removed[k].as_str());
        if same_path_exec(x.as_slice(), p) {
            assert(rv[k as int] == x@);
            return true;
        }
        k = k + 1;
    }
    false
}

impl DenyPolicies {
    /// The policies, as a set: no two are the same.
    #[verifier::type_invariant]
    spec fn wf(self) -> bool {
        distinct_policies(policy_views(self.policies@))
    }

    /// The policies.
    pub closed spec fn policies(&self) -> Seq<(PolicyKind, Seq<char>)> {
        policy_views(self.policies@)
    }

    /// The set of the given policies.
    pub fn new(policies: Vec<FilePolicy>) -> (r: DenyPolicies)
        ensures
            r.policies() == dedup_policies(policy_views(policies@)),
            distinct_policies(r.policies()),
    {
        let v = dedup_exec(policies.as_slice());
        proof {
            lemma_dedup_distinct(policy_views(policies@));
        }
        DenyPolicies { policies: v }
    }

    /// No policy at all.
    pub fn empty() -> (r: DenyPolicies)
        ensures
            r.policies() == Seq::<(PolicyKind, Seq<char>)>::empty(),
    {
        let r = DenyPolicies { policies: Vec::new() };
        assert(policy_views(r.policies@) =~= Seq::<(PolicyKind, Seq<char>)>::empty());
        r
    }

    /// A copy.
    pub fn duplicate(&self) -> (r: DenyPolicies)
        ensures
            r.policies() == self.policies(),
    {
        proof {
            use_type_invariant(self);
        }
        let v = self.policies.clone();
        assert(policy_views(v@) =~= policy_views(self.policies@)) by {
            assert forall|k: int| 0 <= k < v@.len() implies v@[k]@ == self.policies@[k]@ by {
                assert(cloned::<FilePolicy>(self.policies@[k], v@[k]));
            }
        }
        DenyPolicies { policies: v }
    }

    /// The policies, as a slice.
    pub fn as_slice(&self) -> (r: &[FilePolicy])
        ensures
            policy_views(r@) == self.policies(),
            distinct_policies(self.policies()),
    {
        proof {
            use_type_invariant(self);
        }
        self.policies.as_slice()
    }

    /// The files that remain: with policies, those that denote none of the paths the
    /// policies select (made absolute); without, all of them.
    pub fn deny_files(deny_policies: &Self, files: &[String]) -> (r: Vec<String>)
        ensures
            views(r@) == deny_spec(deny_policies.policies(), views(files@)),
    {
        let ghost xs = views(files@);
        if deny_policies.policies.len() == 0 {
            return crate::text::clone_strings(files);
        }
        let filtered = FilePolicy::apply_file_policies(deny_policies.policies.as_slice(), files);
        let mut result: Vec<String> = Vec::new();
        let mut i: usize = 0;
        while i < files.len()
            invariant
                i <= files.len(),
                xs == views(files@),
                deny_policies.policies().len() > 0,
                views(filtered@) == apply_rec(deny_policies.policies(), xs),
                views(result@) == keep_not_in(xs.take(i as int), views(filtered@)),
            decreases files.len() - i,
        {
            let f = chars_of(files[i].as_str());
            let found = in_paths(&filtered, f.as_slice());
            if !found {
                result.push(files[i].clone());
            }
            i = i + 1;
            assert(xs.take(i as int).drop_last() == xs.take(i - 1));
            assert(views(result@) =~= keep_not_in(xs.take(i as int), views(filtered@)));
        }
        assert(xs.take(files.len() as int) == xs);
        result
    }

    /// With policies, a file is denied when some policy selects it, the file read as
    /// absolute (with a leading `/`); without, no file is denied.
    pub fn should_deny_file(deny_policies: &Self, file: &str) -> (r: bool)
        ensures
            r == (deny_policies.policies().len() > 0 && any_matches(
                deny_policies.policies(),
                with_leading_slash(file@),
            )),
    {
        if deny_policies.policies.len() == 0 {
            false
        } else {
            let lead_chars = crate::path::add_leading_slash(crate::text::chars_of(file).as_slice());
            let lead_str = crate::text::string_of(lead_chars.as_slice());
            let mut one: Vec<String> = Vec::new();
            one.push(lead_str);
            let res = Self::deny_files(deny_policies, one.as_slice());
            proof {
                let pols = deny_policies.policies();
                let xs = views(one@);
                let lead = with_leading_slash(file@);
                assert(xs.drop_last() =~= Seq::<Seq<char>>::empty());
                assert(xs.last() == lead);
                assert(with_leading_slash(lead) == lead);
                assert(apply_rec(pols, xs.drop_last()) == Seq::<Seq<char>>::empty());
                assert(apply_rec(pols, xs) =~= matches_seq(pols, lead));
                lemma_matches_seq(pols, lead);
                let removed = matches_seq(pols, lead);
                assert(keep_not_in(xs, removed) == keep_not_in(xs.drop_last(), removed) + if exists|
                    k: int,
                | 0 <= k < removed.len() && same_path(#[trigger] removed[k], xs.last()) {
                    seq![]
                } else {
                    seq![xs.last()]
                });
                assert(keep_not_in(xs.drop_last(), removed) =~= Seq::<Seq<char>>::empty());
                if removed.len() > 0 {
                    assert(removed[0] == lead);
                }
            }
            res.len() == 0
        }
    }
}

impl Default for DenyPolicies {
    fn default() -> (r: DenyPolicies)
        ensures
            r.policies() == Seq::<(PolicyKind, Seq<char>)>::empty(),
    {
        DenyPolicies::empty()
    }
}

} // verus!
