//! Module descriptors (`protofetch.toml`): their dependencies, the rules of each
//! dependency, and how they are read from and written to TOML.
use vstd::prelude::*;

use super::policy::{
    dedup_policies, policy_from_rule, policy_views, AllowPolicies, ContentRoot, DenyPolicies,
    FilePolicy, PolicyKind,
};
use super::{
    url_parts, Coordinate, CoordinateView, ModuleName, Protocol, Revision, RevisionSpecification,
    SpecificationView, coordinate_url, protocol_name,
};
use crate::model::{invalid_value, missing_key, ParseError, ParseErrorView};
use crate::path::{same_path, strip_leading_slashes};
use crate::text::{opt_view, views};
use crate::toml_doc::{
    entries_view, entry_insert, table_insert, toml_view, TomlView,
    as_string, as_string_array, parse_toml, spec_parse_toml, string_array_exec, table_find,
    table_lookup, toml_get, toml_get_exec, TomlValue,
};

verus! {

/// How a dependency's files are selected and copied.
#[derive(Debug, PartialEq, Eq, Hash, PartialOrd, Ord)]
pub struct Rules {
    /// Copy only the files the selected ones import, transitively.
    pub prune: bool,
    /// The dependency only serves the imports of other dependencies.
    pub transitive: bool,
    /// The directories package paths are relative to.
    pub content_roots: Vec<ContentRoot>,
    pub allow_policies: AllowPolicies,
    pub deny_policies: DenyPolicies,
}

/// The content of a set of rules.
pub struct RulesView {
    pub prune: bool,
    pub transitive: bool,
    pub content_roots: Seq<Seq<char>>,
    pub allow_policies: Seq<(PolicyKind, Seq<char>)>,
    pub deny_policies: Seq<(PolicyKind, Seq<char>)>,
}

/// The values of some content roots.
pub open spec fn root_views(v: Seq<ContentRoot>) -> Seq<Seq<char>> {
    v.map_values(|r: ContentRoot| r.value@)
}

impl View for Rules {
    type V = RulesView;

    open spec fn view(&self) -> RulesView {
        RulesView {
            prune: self.prune,
            transitive: self.transitive,
            content_roots: root_views(self.content_roots@),
            allow_policies: self.allow_policies.policies(),
            deny_policies: self.deny_policies.policies(),
        }
    }
}

/// No pruning, not transitive, no content root and no policy.
pub open spec fn default_rules() -> RulesView {
    RulesView {
        prune: false,
        transitive: false,
        content_roots: seq![],
        allow_policies: seq![],
        deny_policies: seq![],
    }
}

fn clone_roots(v: &Vec<ContentRoot>) -> (r: Vec<ContentRoot>)
    ensures
        root_views(r@) == root_views(v@),
{
    let mut r: Vec<ContentRoot> = Vec::new();
    let mut i: usize = 0;
    while i < v.len()
        invariant
            i <= v.len(),
            r@.len() == i,
            forall|k: int| 0 <= k < i ==> r@[k].value@ == v@[k].value@,
        decreases v.len() - i,
    {
        r.push(v[i].clone());
        i = i + 1;
    }
    assert(root_views(r@) =~= root_views(v@));
    r
}

impl Clone for Rules {
    fn clone(&self) -> (r: Self)
        ensures
            r@ == self@,
    {
        Rules {
            prune: self.prune,
            transitive: self.transitive,
            content_roots: clone_roots(&self.content_roots),
            allow_policies: self.allow_policies.duplicate(),
            deny_policies: self.deny_policies.duplicate(),
        }
    }
}

impl Default for Rules {
    fn default() -> (r: Self)
        ensures
            r@ == default_rules(),
    {
        let r = Rules {
            prune: false,
            transitive: false,
            content_roots: Vec::new(),
            allow_policies: AllowPolicies::empty(),
            deny_policies: DenyPolicies::empty(),
        };
        assert(root_views(r.content_roots@) =~= Seq::<Seq<char>>::empty());
        r
    }
}

/// A dependency of a module, under the name the module gives it.
#[derive(Debug, PartialEq, Eq, PartialOrd, Ord)]
pub struct Dependency {
    pub name: ModuleName,
    pub coordinate: Coordinate,
    pub specification: RevisionSpecification,
    pub rules: Rules,
}

/// The content of a dependency.
pub struct DependencyView {
    pub name: Seq<char>,
    pub coordinate: CoordinateView,
    pub specification: SpecificationView,
    pub rules: RulesView,
}

impl View for Dependency {
    type V = DependencyView;

    open spec fn view(&self) -> DependencyView {
        DependencyView {
            name: self.name@,
            coordinate: self.coordinate@,
            specification: self.specification@,
            rules: self.rules@,
        }
    }
}

impl Clone for Dependency {
    fn clone(&self) -> (r: Self)
        ensures
            r@ == self@,
    {
        Dependency {
            name: self.name.clone(),
            coordinate: self.coordinate.clone(),
            specification: self.specification.clone(),
            rules: self.rules.clone(),
        }
    }
}

/// The views of some dependencies.
pub open spec fn dependency_views(v: Seq<Dependency>) -> Seq<DependencyView> {
    v.map_values(|d: Dependency| d@)
}

/// A module: its name, description, output directory and dependencies.
#[derive(Debug, PartialEq, Eq, PartialOrd, Ord)]
pub struct Descriptor {
    pub name: ModuleName,
    pub description: Option<String>,
    pub proto_out_dir: Option<String>,
    pub dependencies: Vec<Dependency>,
}

/// The content of a descriptor.
pub struct DescriptorView {
    pub name: Seq<char>,
    pub description: Option<Seq<char>>,
    pub proto_out_dir: Option<Seq<char>>,
    pub dependencies: Seq<DependencyView>,
}

impl View for Descriptor {
    type V = DescriptorView;

    open spec fn view(&self) -> DescriptorView {
        DescriptorView {
            name: self.name@,
            description: opt_view(self.description),
            proto_out_dir: opt_view(self.proto_out_dir),
            dependencies: dependency_views(self.dependencies@),
        }
    }
}

/// Copies of some dependencies.
pub fn clone_dependencies(v: &Vec<Dependency>) -> (r: Vec<Dependency>)
    ensures
        dependency_views(r@) == dependency_views(v@),
{
    let mut r: Vec<Dependency> = Vec::new();
    let mut i: usize = 0;
    while i < v.len()
        invariant
            i <= v.len(),
            r@.len() == i,
            forall|k: int| 0 <= k < i ==> r@[k]@ == v@[k]@,
        decreases v.len() - i,
    {
        r.push(v[i].clone());
        i = i + 1;
    }
    assert(dependency_views(r@) =~= dependency_views(v@));
    r
}

impl Clone for Descriptor {
    fn clone(&self) -> (r: Self)
        ensures
            r@ == self@,
    {
        Descriptor {
            name: self.name.clone(),
            description: self.description.clone(),
            proto_out_dir: self.proto_out_dir.clone(),
            dependencies: clone_dependencies(&self.dependencies),
        }
    }
}

/// The view of a result of parsing.
pub open spec fn result_view<T: View>(r: Result<T, ParseError>) -> Result<T::V, ParseErrorView> {
    match r {
        Ok(v) => Ok(v@),
        Err(e) => Err(e@),
    }
}

/// The protocol a TOML value names: exactly `https` or `ssh`.
pub open spec fn protocol_value(v: TomlValue) -> Option<Protocol> {
    match as_string(v) {
        Some(s) => if s == "https"@ {
            Some(Protocol::Https)
        } else if s == "ssh"@ {
            Some(Protocol::Ssh)
        } else {
            None
        },
        None => None,
    }
}

/// An optional string entry: absent, or a string.
pub open spec fn optional_string_ok(o: Option<TomlValue>) -> bool {
    o is None || as_string(o->0) is Some
}

/// The string of an optional string entry.
pub open spec fn optional_string(o: Option<TomlValue>) -> Option<Seq<char>> {
    match o {
        Some(v) => as_string(v),
        None => None,
    }
}

/// An optional boolean entry, false when absent.
pub open spec fn optional_bool(o: Option<TomlValue>) -> Option<bool> {
    match o {
        None => Some(false),
        Some(TomlValue::Boolean(b)) => Some(b),
        Some(_) => None,
    }
}

/// An optional array of strings, empty when absent.
pub open spec fn optional_strings(o: Option<TomlValue>) -> Option<Seq<Seq<char>>> {
    match o {
        None => Some(seq![]),
        Some(v) => as_string_array(v),
    }
}

/// The policies that rules stand for, or the first rule that is invalid.
pub open spec fn policies_from_rules(rules: Seq<Seq<char>>) -> Result<
    Seq<(PolicyKind, Seq<char>)>,
    Seq<char>,
>
    decreases rules.len(),
{
    if rules.len() == 0 {
        Ok(seq![])
    } else {
        match policies_from_rules(rules.drop_last()) {
            Err(e) => Err(e),
            Ok(ps) => match policy_from_rule(rules.last()) {
                Some(p) => Ok(ps.push(p)),
                None => Err(rules.last()),
            },
        }
    }
}

/// The root at `i` has no later equal.
pub open spec fn last_root(s: Seq<Seq<char>>, i: int) -> bool {
    forall|j: int| i < j < s.len() ==> !same_path(s[i], #[trigger] s[j])
}

/// The first `n` roots, each kept only when no later one denotes the same path.
pub open spec fn dedup_roots_upto(s: Seq<Seq<char>>, n: int) -> Seq<Seq<char>>
    decreases n,
{
    if n <= 0 {
        seq![]
    } else {
        dedup_roots_upto(s, n - 1) + if last_root(s, n - 1) {
            seq![s[n - 1]]
        } else {
            seq![]
        }
    }
}

/// The set of content roots the given strings stand for.
pub open spec fn content_roots_from(strs: Seq<Seq<char>>) -> Seq<Seq<char>> {
    let s = strs.map_values(|x: Seq<char>| strip_leading_slashes(x));
    dedup_roots_upto(s, s.len() as int)
}

/// The dependency a TOML table describes, under the name `name`; the first problem
/// met otherwise, in the order protocol, branch, url, revision, prune, content roots,
/// transitive, allow policies, deny policies.
pub open spec fn dependency_from_toml(name: Seq<char>, v: TomlValue) -> Result<
    DependencyView,
    ParseErrorView,
> {
    let protocol_v = toml_get(v, "protocol"@);
    let branch_v = toml_get(v, "branch"@);
    let url_v = toml_get(v, "url"@);
    let revision_v = toml_get(v, "revision"@);
    let prune_v = toml_get(v, "prune"@);
    let roots_v = toml_get(v, "content_roots"@);
    let transitive_v = toml_get(v, "transitive"@);
    let allow_v = toml_get(v, "allow_policies"@);
    let deny_v = toml_get(v, "deny_policies"@);
    if protocol_v is Some && protocol_value(protocol_v->0) is None {
        Err(ParseErrorView::InvalidValue("protocol"@))
    } else if !optional_string_ok(branch_v) {
        Err(ParseErrorView::InvalidValue("branch"@))
    } else if url_v is None {
        Err(ParseErrorView::MissingKey("url"@))
    } else if as_string(url_v->0) is None {
        Err(ParseErrorView::InvalidValue("url"@))
    } else if url_parts(as_string(url_v->0)->0) is None {
        Err(ParseErrorView::MissingUrlComponent("forge"@, as_string(url_v->0)->0))
    } else if !optional_string_ok(revision_v) {
        Err(ParseErrorView::InvalidValue("revision"@))
    } else if optional_bool(prune_v) is None {
        Err(ParseErrorView::InvalidValue("prune"@))
    } else if optional_strings(roots_v) is None {
        Err(ParseErrorView::InvalidValue("content_roots"@))
    } else if optional_bool(transitive_v) is None {
        Err(ParseErrorView::InvalidValue("transitive"@))
    } else if optional_strings(allow_v) is None {
        Err(ParseErrorView::InvalidValue("allow_policies"@))
    } else if policies_from_rules(optional_strings(allow_v)->0) is Err {
        Err(
            ParseErrorView::ParsePolicyRuleError(
                policies_from_rules(optional_strings(allow_v)->0)->Err_0,
            ),
        )
    } else if optional_strings(deny_v) is None {
        Err(ParseErrorView::InvalidValue("deny_policies"@))
    } else if policies_from_rules(optional_strings(deny_v)->0) is Err {
        Err(
            ParseErrorView::ParsePolicyRuleError(
                policies_from_rules(optional_strings(deny_v)->0)->Err_0,
            ),
        )
    } else {
        let parts = url_parts(as_string(url_v->0)->0)->0;
        let protocol = match protocol_v {
            Some(p) => protocol_value(p),
            None => None,
        };
        Ok(
            DependencyView {
                name,
                coordinate: CoordinateView {
                    forge: parts.0,
                    organization: parts.1,
                    repository: parts.2,
                    protocol,
                },
                specification: SpecificationView {
                    revision: optional_string(revision_v),
                    branch: optional_string(branch_v),
                },
                rules: RulesView {
                    prune: optional_bool(prune_v)->0,
                    transitive: optional_bool(transitive_v)->0,
                    content_roots: content_roots_from(optional_strings(roots_v)->0),
                    allow_policies: dedup_policies(
                        policies_from_rules(optional_strings(allow_v)->0)->Ok_0,
                    ),
                    deny_policies: dedup_policies(
                        policies_from_rules(optional_strings(deny_v)->0)->Ok_0,
                    ),
                },
            },
        )
    }
}

fn optional_string_exec(o: Option<&TomlValue>, key: &str) -> (r: Result<Option<String>, ParseError>)
    ensures
        match o {
            None => r matches Ok(None),
            Some(v) => match as_string(*v) {
                Some(s) => r matches Ok(Some(x)) && x@ == s,
                None => r matches Err(e) && e@ == ParseErrorView::InvalidValue(key@),
            },
        },
{
    match o {
        None => Ok(None),
        Some(TomlValue::String(s)) => Ok(Some(s.clone())),
        Some(_) => Err(invalid_value(key)),
    }
}

fn optional_bool_exec(o: Option<&TomlValue>, key: &str) -> (r: Result<bool, ParseError>)
    ensures
        match optional_bool(
            match o {
                Some(v) => Some(*v),
                None => None,
            },
        ) {
            Some(b) => r == Ok::<bool, ParseError>(b),
            None => r matches Err(e) && e@ == ParseErrorView::InvalidValue(key@),
        },
{
    match o {
        None => Ok(false),
        Some(TomlValue::Boolean(b)) => Ok(*b),
        Some(_) => Err(invalid_value(key)),
    }
}

fn optional_strings_exec(o: Option<&TomlValue>, key: &str) -> (r: Result<Vec<String>, ParseError>)
    ensures
        match optional_strings(
            match o {
                Some(v) => Some(*v),
                None => None,
            },
        ) {
            Some(ss) => r matches Ok(x) && views(x@) == ss,
            None => r matches Err(e) && e@ == ParseErrorView::InvalidValue(key@),
        },
{
    match o {
        None => {
            let v: Vec<String> = Vec::new();
            assert(views(v@) =~= Seq::<Seq<char>>::empty());
            Ok(v)
        },
        Some(v) => match string_array_exec(v) {
            Some(ss) => Ok(ss),
            None => Err(invalid_value(key)),
        },
    }
}

fn policies_exec(rules: &Vec<String>) -> (r: Result<Vec<FilePolicy>, ParseError>)
    ensures
        match policies_from_rules(views(rules@)) {
            Ok(ps) => r matches Ok(x) && policy_views(x@) == ps,
            Err(bad) => r matches Err(e) && e@ == ParseErrorView::ParsePolicyRuleError(bad),
        },
{
    let ghost rv = views(rules@);
    let mut out: Vec<FilePolicy> = Vec::new();
    let mut i: usize = 0;
    assert(rv.take(0) =~= Seq::<Seq<char>>::empty());
    assert(policy_views(out@) =~= Seq::<(PolicyKind, Seq<char>)>::empty());
    while i < rules.len()
        invariant
            i <= rules.len(),
            rv == views(rules@),
            policies_from_rules(rv.take(i as int)) == Ok::<
                Seq<(PolicyKind, Seq<char>)>,
                Seq<char>,
            >(policy_views(out@)),
        decreases rules.len() - i,
    {
        assert(rv.take(i + 1).drop_last() == rv.take(i as int));
        assert(rv.take(i + 1).last() == rules@[i as int]@);
        match FilePolicy::try_from_str(rules[i].as_str()) {
            Ok(p) => {
                let ghost before = policy_views(out@);
                let ghost pv = p@;
                out.push(p);
                assert(policy_views(out@) =~= before.push(pv));
                assert(policies_from_rules(rv.take(i + 1)) == Ok::<
                    Seq<(PolicyKind, Seq<char>)>,
                    Seq<char>,
                >(before.push(pv)));
            },
            Err(e) => {
                proof {
                    lemma_policies_prefix_err(rv, i as int + 1);
                }
                return Err(e);
            },
        }
        i = i + 1;
    }
    assert(rv.take(rules.len() as int) == rv);
    Ok(out)
}

proof fn lemma_policies_prefix_err(rules: Seq<Seq<char>>, n: int)
    requires
        0 <= n <= rules.len(),
        policies_from_rules(rules.take(n)) is Err,
    ensures
        policies_from_rules(rules) == policies_from_rules(rules.take(n)),
    decreases rules.len() - n,
{
    if n < rules.len() {
        assert(rules.take(n + 1).drop_last() == rules.take(n));
        lemma_policies_prefix_err(rules, n + 1);
    } else {
        assert(rules.take(n) == rules);
    }
}

fn roots_exec(strs: &Vec<String>) -> (r: Vec<ContentRoot>)
    ensures
        root_views(r@) == content_roots_from(views(strs@)),
{
    let ghost s = views(strs@).map_values(|x: Seq<char>| strip_leading_slashes(x));
    let mut all: Vec<ContentRoot> = Vec::new();
    let mut i: usize = 0;
    while i < strs.len()
        invariant
            i <= strs.len(),
            s == views(strs@).map_values(|x: Seq<char>| strip_leading_slashes(x)),
            all@.len() == i,
            forall|k: int| 0 <= k < i ==> #[trigger] all@[k].value@ == s[k],
        decreases strs.len() - i,
    {
        all.push(ContentRoot::from_string(strs[i].as_str()));
        i = i + 1;
    }
    let mut out: Vec<ContentRoot> = Vec::new();
    let mut i: usize = 0;
    while i < all.len()
        invariant
            i <= all.len(),
            all@.len() == s.len(),
            forall|k: int| 0 <= k < all@.len() ==> #[trigger] all@[k].value@ == s[k],
            root_views(out@) == dedup_roots_upto(s, i as int),
        decreases all.len() - i,
    {
        let mut later = false;
        let mut j: usize = i + 1;
        let a = crate::text::chars_of(all[i].value.as_str());
        while j < all.len()
            invariant
                i < all.len(),
                i + 1 <= j <= all.len(),
                all@.len() == s.len(),
                forall|k: int| 0 <= k < all@.len() ==> #[trigger] all@[k].value@ == s[k],
                a@ == s[i as int],
                later == exists|k: int| i < k < j && same_path(s[i as int], #[trigger] s[k]),
            decreases all.len() - j,
        {
            let b = crate::text::chars_of(all[j].value.as_str());
            assert(b@ == s[j as int]);
            if crate::path::same_path_exec(a.as_slice(), b.as_slice()) {
                later = true;
            }
            j = j + 1;
        }
        assert(later == !last_root(s, i as int));
        if !later {
            let c = all[i].clone();
            out.push(c);
            assert(root_views(out@) =~= dedup_roots_upto(s, i as int) + seq![s[i as int]]);
        }
        i = i + 1;
        assert(dedup_roots_upto(s, i as int) == dedup_roots_upto(s, i - 1) + if last_root(
            s,
            i - 1,
        ) {
            seq![s[i - 1]]
        } else {
            seq![]
        });
    }
    out
}

fn protocol_exec(o: Option<&TomlValue>) -> (r: Result<Option<Protocol>, ParseError>)
    ensures
        match o {
            None => r == Ok::<Option<Protocol>, ParseError>(None),
            Some(v) => match protocol_value(*v) {
                Some(p) => r == Ok::<Option<Protocol>, ParseError>(Some(p)),
                None => r matches Err(e) && e@ == ParseErrorView::InvalidValue("protocol"@),
            },
        },
{
    match o {
        None => Ok(None),
        Some(TomlValue::String(s)) => {
            if crate::text::str_eq(s.as_str(), "https") {
                Ok(Some(Protocol::Https))
            } else if crate::text::str_eq(s.as_str(), "ssh") {
                Ok(Some(Protocol::Ssh))
            } else {
                Err(invalid_value("protocol"))
            }
        },
        Some(_) => Err(invalid_value("protocol")),
    }
}

fn opt_ref_view(o: Option<&TomlValue>) -> (r: Ghost<Option<TomlValue>>)
    ensures
        r@ == match o {
            Some(v) => Some(*v),
            None => None::<TomlValue>,
        },
{
    Ghost(
        match o {
            Some(v) => Some(*v),
            None => None,
        },
    )
}

/// Reads the dependency a TOML table describes, under the name `name`.
pub fn parse_dependency(name: &str, value: &TomlValue) -> (r: Result<Dependency, ParseError>)
    ensures
        result_view(r) == dependency_from_toml(name@, *value),
{
    let protocol = match protocol_exec(toml_get_exec(value, "protocol")) {
        Ok(p) => p,
        Err(e) => return Err(e),
    };
    let branch = match optional_string_exec(toml_get_exec(value, "branch"), "branch") {
        Ok(b) => b,
        Err(e) => return Err(e),
    };
    let url_v = match toml_get_exec(value, "url") {
        Some(u) => u,
        None => return Err(missing_key("url")),
    };
    let url = match url_v {
        TomlValue::String(s) => s,
        _ => return Err(invalid_value("url")),
    };
    let coordinate = match Coordinate::from_url_protocol(url.as_str(), protocol) {
        Ok(c) => c,
        Err(e) => {
            proof {
                reveal_strlit("forge");
                assert("forge"@ =~= seq!['f', 'o', 'r', 'g', 'e']);
                assert(as_string(*url_v) == Some(url@));
            }
            return Err(e);
        },
    };
    let revision = match optional_string_exec(toml_get_exec(value, "revision"), "revision") {
        Ok(Some(r)) => Revision::Pinned { revision: r },
        Ok(None) => Revision::Arbitrary,
        Err(e) => return Err(e),
    };
    let prune = match optional_bool_exec(toml_get_exec(value, "prune"), "prune") {
        Ok(b) => b,
        Err(e) => return Err(e),
    };
    let root_strings = match optional_strings_exec(
        toml_get_exec(value, "content_roots"),
        "content_roots",
    ) {
        Ok(v) => v,
        Err(e) => return Err(e),
    };
    let transitive = match optional_bool_exec(toml_get_exec(value, "transitive"), "transitive") {
        Ok(b) => b,
        Err(e) => return Err(e),
    };
    let allow_rules = match optional_strings_exec(
        toml_get_exec(value, "allow_policies"),
        "allow_policies",
    ) {
        Ok(v) => v,
        Err(e) => return Err(e),
    };
    let allow = match policies_exec(&allow_rules) {
        Ok(v) => v,
        Err(e) => return Err(e),
    };
    let deny_rules = match optional_strings_exec(
        toml_get_exec(value, "deny_policies"),
        "deny_policies",
    ) {
        Ok(v) => v,
        Err(e) => return Err(e),
    };
    let deny = match policies_exec(&deny_rules) {
        Ok(v) => v,
        Err(e) => return Err(e),
    };
    let content_roots = roots_exec(&root_strings);
    let rules = Rules {
        prune,
        transitive,
        content_roots,
        allow_policies: AllowPolicies::new(allow),
        deny_policies: DenyPolicies::new(deny),
    };
    Ok(
        Dependency {
            name: ModuleName::from_str(name),
            coordinate,
            specification: RevisionSpecification { revision, branch },
            rules,
        },
    )
}

/// Keys of a descriptor table that are not dependencies.
pub open spec fn is_reserved_key(k: Seq<char>) -> bool {
    k == "name"@ || k == "description"@ || k == "proto_out_dir"@
}

/// The dependencies the non-reserved entries of a descriptor table describe, in order,
/// or the first problem met.
pub open spec fn dependencies_from(entries: Seq<(String, TomlValue)>) -> Result<
    Seq<DependencyView>,
    ParseErrorView,
>
    decreases entries.len(),
{
    if entries.len() == 0 {
        Ok(seq![])
    } else {
        match dependencies_from(entries.drop_last()) {
            Err(e) => Err(e),
            Ok(ds) => if is_reserved_key(entries.last().0@) {
                Ok(ds)
            } else {
                match dependency_from_toml(entries.last().0@, entries.last().1) {
                    Err(e) => Err(e),
                    Ok(d) => Ok(ds.push(d)),
                }
            },
        }
    }
}

/// The descriptor a TOML table describes: a string `name`, optional strings
/// `description` and `proto_out_dir`, and a dependency under every other key.
pub open spec fn descriptor_from_table(t: Seq<(String, TomlValue)>) -> Result<
    DescriptorView,
    ParseErrorView,
> {
    let name_v = table_lookup(t, "name"@);
    let desc_v = table_lookup(t, "description"@);
    let out_v = table_lookup(t, "proto_out_dir"@);
    if name_v is None {
        Err(ParseErrorView::MissingKey("name"@))
    } else if as_string(name_v->0) is None {
        Err(ParseErrorView::InvalidValue("name"@))
    } else if !optional_string_ok(desc_v) {
        Err(ParseErrorView::InvalidValue("description"@))
    } else if !optional_string_ok(out_v) {
        Err(ParseErrorView::InvalidValue("proto_out_dir"@))
    } else {
        match dependencies_from(t) {
            Err(e) => Err(e),
            Ok(ds) => Ok(
                DescriptorView {
                    name: as_string(name_v->0)->0,
                    description: optional_string(desc_v),
                    proto_out_dir: optional_string(out_v),
                    dependencies: ds,
                },
            ),
        }
    }
}

/// The descriptor a TOML text describes.
pub open spec fn descriptor_from_text(text: Seq<char>) -> Result<DescriptorView, ParseErrorView> {
    match spec_parse_toml(text) {
        Err(m) => Err(ParseErrorView::Toml(m@)),
        Ok(t) => descriptor_from_table(t@),
    }
}

fn table_get<'a>(t: &'a Vec<(String, TomlValue)>, key: &str) -> (r: Option<&'a TomlValue>)
    ensures
        match r {
            Some(x) => table_lookup(t@, key@) == Some(*x),
            None => table_lookup(t@, key@) is None,
        },
{
    match table_find(t, key) {
        Some(i) => Some(&t[i].1),
        None => None,
    }
}

fn is_reserved_key_exec(k: &str) -> (r: bool)
    ensures
        r == is_reserved_key(k@),
{
    crate::text::str_eq(k, "name") || crate::text::str_eq(k, "description") || crate::text::str_eq(
        k,
        "proto_out_dir",
    )
}

proof fn lemma_dependencies_prefix_err(t: Seq<(String, TomlValue)>, n: int)
    requires
        0 <= n <= t.len(),
        dependencies_from(t.take(n)) is Err,
    ensures
        dependencies_from(t) == dependencies_from(t.take(n)),
    decreases t.len() - n,
{
    if n < t.len() {
        assert(t.take(n + 1).drop_last() == t.take(n));
        lemma_dependencies_prefix_err(t, n + 1);
    } else {
        assert(t.take(n) == t);
    }
}

impl Descriptor {
    /// Reads a descriptor from a TOML table.
    pub fn from_toml_table(t: &Vec<(String, TomlValue)>) -> (r: Result<Descriptor, ParseError>)
        ensures
            result_view(r) == descriptor_from_table(t@),
    {
        let name = match table_get(t, "name") {
            None => return Err(missing_key("name")),
            Some(TomlValue::String(s)) => s.clone(),
            Some(_) => return Err(invalid_value("name")),
        };
        let description = match optional_string_exec(table_get(t, "description"), "description") {
            Ok(d) => d,
            Err(e) => return Err(e),
        };
        let proto_out_dir = match optional_string_exec(
            table_get(t, "proto_out_dir"),
            "proto_out_dir",
        ) {
            Ok(d) => d,
            Err(e) => return Err(e),
        };
        let mut dependencies: Vec<Dependency> = Vec::new();
        let mut i: usize = 0;
        assert(t@.take(0) =~= Seq::<(String, TomlValue)>::empty());
        assert(dependency_views(dependencies@) =~= Seq::<DependencyView>::empty());
        while i < t.len()
            invariant
                i <= t.len(),
                descriptor_from_table(t@) == match dependencies_from(t@) {
                    Err(e) => Err(e),
                    Ok(ds) => Ok(
                        DescriptorView {
                            name: name@,
                            description: opt_view(description),
                            proto_out_dir: opt_view(proto_out_dir),
                            dependencies: ds,
                        },
                    ),
                },
                dependencies_from(t@.take(i as int)) == Ok::<
                    Seq<DependencyView>,
                    ParseErrorView,
                >(dependency_views(dependencies@)),
            decreases t.len() - i,
        {
            assert(t@.take(i + 1).drop_last() == t@.take(i as int));
            assert(t@.take(i + 1).last() == t@[i as int]);
            let ghost before = dependency_views(dependencies@);
            if !is_reserved_key_exec(t[i].0.as_str()) {
                match parse_dependency(t[i].0.as_str(), &t[i].1) {
                    Ok(d) => {
                        let ghost dv = d@;
                        dependencies.push(d);
                        assert(dependency_views(dependencies@) =~= before.push(dv));
                    },
                    Err(e) => {
                        proof {
                            lemma_dependencies_prefix_err(t@, i as int + 1);
                        }
                        return Err(e);
                    },
                }
            }
            i = i + 1;
        }
        assert(t@.take(t.len() as int) == t@);
        Ok(Descriptor { name: ModuleName::new(name), description, proto_out_dir, dependencies })
    }

    /// Reads a descriptor from the text of a `protofetch.toml`.
    pub fn from_toml_str(data: &str) -> (r: Result<Descriptor, ParseError>)
        ensures
            result_view(r) == descriptor_from_text(data@),
    {
        match parse_toml(data) {
            Err(m) => Err(ParseError::Toml(m)),
            Ok(t) => Self::from_toml_table(&t),
        }
    }
}

/// The TOML table a dependency is written as: its url, then its protocol, revision and
/// branch where it has them. Rules are not written.
pub open spec fn dependency_table(d: DependencyView) -> Seq<(Seq<char>, TomlView)> {
    seq![("url"@, TomlView::String(coordinate_url(d.coordinate)))] + match d.coordinate.protocol {
        Some(p) => seq![("protocol"@, TomlView::String(protocol_name(p)))],
        None => seq![],
    } + match d.specification.revision {
        Some(r) => seq![("revision"@, TomlView::String(r))],
        None => seq![],
    } + match d.specification.branch {
        Some(b) => seq![("branch"@, TomlView::String(b))],
        None => seq![],
    }
}

/// The name, description and output directory entries of a descriptor table.
pub open spec fn descriptor_header(d: DescriptorView) -> Seq<(Seq<char>, TomlView)> {
    seq![("name"@, TomlView::String(d.name))] + match d.description {
        Some(x) => seq![("description"@, TomlView::String(x))],
        None => seq![],
    } + match d.proto_out_dir {
        Some(x) => seq![("proto_out_dir"@, TomlView::String(x))],
        None => seq![],
    }
}

/// A table with each dependency put in under its name, in order.
pub open spec fn insert_dependencies(t: Seq<(Seq<char>, TomlView)>, ds: Seq<DependencyView>) -> Seq<
    (Seq<char>, TomlView),
>
    decreases ds.len(),
{
    if ds.len() == 0 {
        t
    } else {
        entry_insert(
            insert_dependencies(t, ds.drop_last()),
            ds.last().name,
            TomlView::Table(dependency_table(ds.last())),
        )
    }
}

/// The TOML table a descriptor is written as.
pub open spec fn descriptor_table(d: DescriptorView) -> Seq<(Seq<char>, TomlView)> {
    insert_dependencies(descriptor_header(d), d.dependencies)
}

fn push_string_entry(t: &mut Vec<(String, TomlValue)>, k: &str, v: String)
    ensures
        entries_view(final(t)@) == entries_view(old(t)@).push((k@, TomlView::String(v@))),
{
    let ghost vv = v@;
    let ks = String::from_str(k);
    let val = TomlValue::String(v);
    assert(toml_view(val) == TomlView::String(vv));
    t.push((ks, val));
    assert(t@.drop_last() == old(t)@);
    assert(t@.last().0@ == k@);
    assert(toml_view(t@.last().1) == TomlView::String(vv));
}

fn dependency_to_toml(d: &Dependency) -> (r: TomlValue)
    ensures
        toml_view(r) == TomlView::Table(dependency_table(d@)),
{
    let mut t: Vec<(String, TomlValue)> = Vec::new();
    push_string_entry(&mut t, "url", d.coordinate.display());
    if let Some(p) = d.coordinate.protocol {
        push_string_entry(&mut t, "protocol", String::from_str(p.as_str()));
    }
    if let Revision::Pinned { revision } = &d.specification.revision {
        push_string_entry(&mut t, "revision", revision.clone());
    }
    if let Some(b) = &d.specification.branch {
        push_string_entry(&mut t, "branch", b.clone());
    }
    assert(entries_view(t@) =~= dependency_table(d@));
    TomlValue::Table(t)
}

impl Descriptor {
    /// The TOML table the descriptor is written as: `name`, `description` and
    /// `proto_out_dir`, then a table for each dependency under its name.
    pub fn into_toml(self) -> (r: Vec<(String, TomlValue)>)
        ensures
            entries_view(r@) == descriptor_table(self@),
    {
        let ghost d = self@;
        let mut t: Vec<(String, TomlValue)> = Vec::new();
        push_string_entry(&mut t, "name", self.name.display());
        if let Some(x) = &self.description {
            push_string_entry(&mut t, "description", x.clone());
        }
        if let Some(x) = &self.proto_out_dir {
            push_string_entry(&mut t, "proto_out_dir", x.clone());
        }
        assert(entries_view(t@) =~= descriptor_header(d));
        let mut i: usize = 0;
        while i < self.dependencies.len()
            invariant
                i <= self.dependencies.len(),
                d == self@,
                entries_view(t@) == insert_dependencies(
                    descriptor_header(d),
                    d.dependencies.take(i as int),
                ),
            decreases self.dependencies.len() - i,
        {
            let dep = &self.dependencies[i];
            let v = dependency_to_toml(dep);
            table_insert(&mut t, dep.name.display(), v);
            i = i + 1;
            assert(d.dependencies.take(i as int).drop_last() == d.dependencies.take(i - 1));
            assert(d.dependencies.take(i as int).last() == self.dependencies@[i - 1]@);
        }
        assert(d.dependencies.take(self.dependencies.len() as int) == d.dependencies);
        t
    }
}

/// A dependency that the table it is written as describes completely: default rules
/// (rules are not written), a name that is not a reserved key, and a coordinate whose
/// parts are non-empty names without `/`.
pub open spec fn written_in_full(d: DependencyView) -> bool {
    &&& d.rules == default_rules()
    &&& !is_reserved_key(d.name)
    &&& d.coordinate.forge.len() > 0 && d.coordinate.organization.len() > 0 && d.coordinate.repository.len() > 0
    &&& forall|i: int| 0 <= i < d.coordinate.forge.len() ==> d.coordinate.forge[i] != '/'
    &&& forall|i: int| 0 <= i < d.coordinate.organization.len() ==> d.coordinate.organization[i] != '/'
    &&& forall|i: int| 0 <= i < d.coordinate.repository.len() ==> d.coordinate.repository[i] != '/'
}

/// The entries of some dependencies in a descriptor table.
pub open spec fn dependency_entries(ds: Seq<DependencyView>) -> Seq<(Seq<char>, TomlView)> {
    ds.map_values(|x: DependencyView| (x.name, TomlView::Table(dependency_table(x))))
}

/// Dependencies under distinct names, none reserved, go after the header in order.
proof fn lemma_insert_dependencies_append(h: Seq<(Seq<char>, TomlView)>, ds: Seq<DependencyView>)
    requires
        forall|j: int| 0 <= j < h.len() ==> is_reserved_key(#[trigger] h[j].0),
        forall|j: int| 0 <= j < ds.len() ==> !is_reserved_key(#[trigger] ds[j].name),
        forall|i: int, j: int| 0 <= i < j < ds.len() ==> (#[trigger] ds[i]).name != (#[trigger] ds[j]).name,
    ensures
        insert_dependencies(h, ds) == h + dependency_entries(ds),
    decreases ds.len(),
{
    if ds.len() == 0 {
        assert(h + dependency_entries(ds) =~= h);
    } else {
        let p = ds.drop_last();
        assert forall|i: int, j: int| 0 <= i < j < p.len() implies (#[trigger] p[i]).name != (#[trigger] p[j]).name by {
            assert(p[i] == ds[i] && p[j] == ds[j]);
        }
        assert forall|j: int| 0 <= j < p.len() implies !is_reserved_key(#[trigger] p[j].name) by {
            assert(p[j] == ds[j]);
        }
        lemma_insert_dependencies_append(h, p);
        let t = h + dependency_entries(p);
        assert forall|j: int| 0 <= j < t.len() implies t[j].0 != ds.last().name by {
            if j < h.len() {
                assert(is_reserved_key(h[j].0));
            } else {
                assert(t[j] == dependency_entries(p)[j - h.len()]);
                assert(p[j - h.len()] == ds[j - h.len()]);
            }
        }
        crate::toml_doc::lemma_entry_insert_new(t, ds.last().name, TomlView::Table(dependency_table(ds.last())));
        assert(t.push((ds.last().name, TomlView::Table(dependency_table(ds.last())))) =~= h + dependency_entries(ds));
    }
}

/// A value whose content is a string is that string.
proof fn lemma_string_of(v: TomlValue, x: Seq<char>)
    requires
        toml_view(v) == TomlView::String(x),
    ensures
        as_string(v) == Some(x),
{
    match v {
        TomlValue::Array(_) => {},
        TomlValue::Table(_) => {},
        _ => {},
    }
}

/// A dependency written in full reads back from its table.
proof fn lemma_dependency_round_trip(v: TomlValue, d: DependencyView)
    requires
        written_in_full(d),
        toml_view(v) == TomlView::Table(dependency_table(d)),
    ensures
        dependency_from_toml(d.name, v) == Ok::<DependencyView, ParseErrorView>(d),
{
    let s = dependency_table(d);
    assert(v is Table) by {
        match v {
            TomlValue::Array(_) => {},
            _ => {},
        }
    }
    let e = v->Table_0@;
    assert(entries_view(e) == s);
    crate::toml_doc::lemma_entries_view_index(e);
    reveal_strlit("url");
    reveal_strlit("protocol");
    reveal_strlit("revision");
    reveal_strlit("branch");
    reveal_strlit("prune");
    reveal_strlit("content_roots");
    reveal_strlit("transitive");
    reveal_strlit("allow_policies");
    reveal_strlit("deny_policies");
    reveal_strlit("https");
    reveal_strlit("ssh");
    let np: int = if d.coordinate.protocol is Some { 1 } else { 0 };
    let nr: int = if d.specification.revision is Some { 1 } else { 0 };
    let nb: int = if d.specification.branch is Some { 1 } else { 0 };
    assert(s.len() == 1 + np + nr + nb);
    assert forall|j: int| 0 <= j < e.len() implies (#[trigger] e[j]).0@ == s[j].0 && toml_view(e[j].1) == s[j].1 by {
        assert(entries_view(e)[j] == (e[j].0@, toml_view(e[j].1)));
    }
    assert(s[0] == ("url"@, TomlView::String(coordinate_url(d.coordinate))));
    if np == 1 {
        assert(s[1] == ("protocol"@, TomlView::String(protocol_name(d.coordinate.protocol->0))));
    }
    if nr == 1 {
        assert(s[1 + np] == ("revision"@, TomlView::String(d.specification.revision->0)));
    }
    if nb == 1 {
        assert(s[1 + np + nr] == ("branch"@, TomlView::String(d.specification.branch->0)));
    }
    assert forall|j: int| 0 <= j < s.len() implies {
        let k = (#[trigger] s[j]).0;
        &&& (j == 0 <==> k[0] == 'u')
        &&& (np == 1 && j == 1) <==> k[0] == 'p'
        &&& (nr == 1 && j == 1 + np) <==> k[0] == 'r'
        &&& (nb == 1 && j == 1 + np + nr) <==> k[0] == 'b'
        &&& k.len() == 3 || k.len() == 6 || k.len() == 8
    } by {}
    crate::toml_doc::lemma_table_lookup_at(e, "url"@, 0);
    lemma_string_of(e[0].1, coordinate_url(d.coordinate));
    super::lemma_url_parts_of_coordinate(d.coordinate);
    if np == 1 {
        assert forall|j: int| 0 <= j < 1 implies (#[trigger] e[j]).0@ != "protocol"@ by {
            assert(e[j].0@[0] != 'p');
        }
        crate::toml_doc::lemma_table_lookup_at(e, "protocol"@, 1);
        lemma_string_of(e[1].1, protocol_name(d.coordinate.protocol->0));
        assert(super::https_chars() =~= "https"@);
        assert(super::ssh_chars() =~= "ssh"@);
    } else {
        assert forall|j: int| 0 <= j < e.len() implies (#[trigger] e[j]).0@ != "protocol"@ by {
            assert(e[j].0@[0] != 'p');
        }
        crate::toml_doc::lemma_table_lookup_absent(e, "protocol"@);
    }
    if nr == 1 {
        assert forall|j: int| 0 <= j < 1 + np implies (#[trigger] e[j]).0@ != "revision"@ by {
            assert(e[j].0@[0] != 'r');
        }
        crate::toml_doc::lemma_table_lookup_at(e, "revision"@, 1 + np);
        lemma_string_of(e[1 + np].1, d.specification.revision->0);
    } else {
        assert forall|j: int| 0 <= j < e.len() implies (#[trigger] e[j]).0@ != "revision"@ by {
            assert(e[j].0@[0] != 'r');
        }
        crate::toml_doc::lemma_table_lookup_absent(e, "revision"@);
    }
    if nb == 1 {
        assert forall|j: int| 0 <= j < 1 + np + nr implies (#[trigger] e[j]).0@ != "branch"@ by {
            assert(e[j].0@[0] != 'b');
        }
        crate::toml_doc::lemma_table_lookup_at(e, "branch"@, 1 + np + nr);
        lemma_string_of(e[1 + np + nr].1, d.specification.branch->0);
    } else {
        assert forall|j: int| 0 <= j < e.len() implies (#[trigger] e[j]).0@ != "branch"@ by {
            assert(e[j].0@[0] != 'b');
        }
        crate::toml_doc::lemma_table_lookup_absent(e, "branch"@);
    }
    assert forall|j: int| 0 <= j < e.len() implies {
        &&& (#[trigger] e[j]).0@ != "prune"@
        &&& e[j].0@ != "content_roots"@
        &&& e[j].0@ != "transitive"@
        &&& e[j].0@ != "allow_policies"@
        &&& e[j].0@ != "deny_policies"@
    } by {
        assert(e[j].0@.len() == 3 || e[j].0@.len() == 6 || e[j].0@.len() == 8);
    }
    crate::toml_doc::lemma_table_lookup_absent(e, "prune"@);
    crate::toml_doc::lemma_table_lookup_absent(e, "content_roots"@);
    crate::toml_doc::lemma_table_lookup_absent(e, "transitive"@);
    crate::toml_doc::lemma_table_lookup_absent(e, "allow_policies"@);
    crate::toml_doc::lemma_table_lookup_absent(e, "deny_policies"@);
    assert(content_roots_from(seq![]) =~= Seq::<Seq<char>>::empty());
    assert(dedup_policies(seq![]) =~= Seq::<(PolicyKind, Seq<char>)>::empty());
}

/// The entries before `k` all have reserved keys: no dependency among them.
proof fn lemma_reserved_prefix(t: Seq<(String, TomlValue)>)
    requires
        forall|j: int| 0 <= j < t.len() ==> is_reserved_key(#[trigger] t[j].0@),
    ensures
        dependencies_from(t) == Ok::<Seq<DependencyView>, ParseErrorView>(seq![]),
    decreases t.len(),
{
    if t.len() > 0 {
        let p = t.drop_last();
        assert forall|j: int| 0 <= j < p.len() implies is_reserved_key(#[trigger] p[j].0@) by {
            assert(p[j] == t[j]);
        }
        lemma_reserved_prefix(p);
        assert(is_reserved_key(t[t.len() - 1].0@));
    }
}

/// Header entries followed by the entries of dependencies written in full read back
/// as those dependencies.
proof fn lemma_dependencies_round_trip(t: Seq<(String, TomlValue)>, h: int, ds: Seq<DependencyView>)
    requires
        0 <= h <= t.len(),
        t.len() == h + ds.len(),
        forall|j: int| 0 <= j < h ==> is_reserved_key(#[trigger] t[j].0@),
        forall|m: int| 0 <= m < ds.len() ==> written_in_full(#[trigger] ds[m]),
        forall|m: int|
            0 <= m < ds.len() ==> (#[trigger] t[h + m]).0@ == ds[m].name && toml_view(t[h + m].1)
                == TomlView::Table(dependency_table(ds[m])),
    ensures
        dependencies_from(t) == Ok::<Seq<DependencyView>, ParseErrorView>(ds),
    decreases ds.len(),
{
    if ds.len() == 0 {
        let p = t;
        assert forall|j: int| 0 <= j < p.len() implies is_reserved_key(#[trigger] p[j].0@) by {}
        lemma_reserved_prefix(t);
        assert(ds =~= Seq::<DependencyView>::empty());
    } else {
        let n = ds.len() - 1;
        let p = t.drop_last();
        let q = ds.drop_last();
        assert forall|j: int| 0 <= j < h implies is_reserved_key(#[trigger] p[j].0@) by {
            assert(p[j] == t[j]);
        }
        assert forall|m: int| 0 <= m < q.len() implies written_in_full(#[trigger] q[m]) by {
            assert(q[m] == ds[m]);
        }
        assert forall|m: int| 0 <= m < q.len() implies (#[trigger] p[h + m]).0@ == q[m].name && toml_view(
            p[h + m].1,
        ) == TomlView::Table(dependency_table(q[m])) by {
            assert(p[h + m] == t[h + m]);
            assert(q[m] == ds[m]);
        }
        lemma_dependencies_round_trip(p, h, q);
        assert(t[h + n] == t.last());
        assert(written_in_full(ds[n]));
        lemma_dependency_round_trip(t.last().1, ds[n]);
        assert(!is_reserved_key(t.last().0@));
        assert(q.push(ds[n]) =~= ds);
    }
}

/// A descriptor written as a table reads back as the same descriptor, when each of its
/// dependencies is written in full (see `written_in_full`) under a name of its own.
#[verifier::rlimit(50)]
pub proof fn lemma_descriptor_round_trip(d: DescriptorView, t: Seq<(String, TomlValue)>)
    requires
        forall|m: int| 0 <= m < d.dependencies.len() ==> written_in_full(#[trigger] d.dependencies[m]),
        forall|i: int, j: int|
            0 <= i < j < d.dependencies.len() ==> (#[trigger] d.dependencies[i]).name != (
            #[trigger] d.dependencies[j]).name,
        entries_view(t) == descriptor_table(d),
    ensures
        descriptor_from_table(t) == Ok::<DescriptorView, ParseErrorView>(d),
{
    let ds = d.dependencies;
    let hd = descriptor_header(d);
    reveal_strlit("name");
    reveal_strlit("description");
    reveal_strlit("proto_out_dir");
    let nd: int = if d.description is Some { 1 } else { 0 };
    let no: int = if d.proto_out_dir is Some { 1 } else { 0 };
    assert(hd.len() == 1 + nd + no);
    assert(hd[0] == ("name"@, TomlView::String(d.name)));
    if nd == 1 {
        assert(hd[1] == ("description"@, TomlView::String(d.description->0)));
    }
    if no == 1 {
        assert(hd[1 + nd] == ("proto_out_dir"@, TomlView::String(d.proto_out_dir->0)));
    }
    assert forall|j: int| 0 <= j < hd.len() implies is_reserved_key(#[trigger] hd[j].0) by {}
    assert forall|j: int| 0 <= j < ds.len() implies !is_reserved_key(#[trigger] ds[j].name) by {
        assert(written_in_full(ds[j]));
    }
    lemma_insert_dependencies_append(hd, ds);
    let full = hd + dependency_entries(ds);
    assert(entries_view(t) == full);
    crate::toml_doc::lemma_entries_view_index(t);
    let h = hd.len() as int;
    assert(t.len() == h + ds.len());
    assert forall|j: int| 0 <= j < t.len() implies (#[trigger] t[j]).0@ == full[j].0 && toml_view(t[j].1) == full[j].1 by {
        assert(entries_view(t)[j] == (t[j].0@, toml_view(t[j].1)));
    }
    assert forall|j: int| 0 <= j < h implies is_reserved_key(#[trigger] t[j].0@) by {
        assert(full[j] == hd[j]);
    }
    assert forall|m: int| 0 <= m < ds.len() implies (#[trigger] t[h + m]).0@ == ds[m].name && toml_view(
        t[h + m].1,
    ) == TomlView::Table(dependency_table(ds[m])) by {
        assert(full[h + m] == dependency_entries(ds)[m]);
    }
    lemma_dependencies_round_trip(t, h, ds);
    // The header lookups: each key is the first of its kind, and no dependency has it.
    assert forall|j: int| 0 <= j < t.len() implies {
        &&& (#[trigger] t[j]).0@ == "name"@ <==> j == 0
        &&& t[j].0@ == "description"@ <==> (nd == 1 && j == 1)
        &&& t[j].0@ == "proto_out_dir"@ <==> (no == 1 && j == 1 + nd)
    } by {
        if j >= h {
            assert(t[h + (j - h)] == t[j]);
            assert(!is_reserved_key(ds[j - h].name));
        } else {
            assert(t[j].0@ == hd[j].0);
        }
    }
    crate::toml_doc::lemma_table_lookup_at(t, "name"@, 0);
    lemma_string_of(t[0].1, d.name);
    if nd == 1 {
        crate::toml_doc::lemma_table_lookup_at(t, "description"@, 1);
        lemma_string_of(t[1].1, d.description->0);
    } else {
        crate::toml_doc::lemma_table_lookup_absent(t, "description"@);
    }
    if no == 1 {
        crate::toml_doc::lemma_table_lookup_at(t, "proto_out_dir"@, 1 + nd);
        lemma_string_of(t[1 + nd].1, d.proto_out_dir->0);
    } else {
        crate::toml_doc::lemma_table_lookup_absent(t, "proto_out_dir"@);
    }
}

/// A dependency read from a table is transitive exactly when the table's `transitive`
/// entry is `true`, and pruned exactly when its `prune` entry is `true`; either entry,
/// absent, reads as `false`.
pub proof fn lemma_dependency_flags(name: Seq<char>, v: TomlValue)
    ensures
        dependency_from_toml(name, v) matches Ok(d) ==> (d.rules.transitive <==> toml_get(v, "transitive"@)
            == Some(TomlValue::Boolean(true))),
        dependency_from_toml(name, v) matches Ok(d) ==> (d.rules.prune <==> toml_get(v, "prune"@) == Some(
            TomlValue::Boolean(true),
        )),
{
}

} // verus!
