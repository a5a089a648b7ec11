//! Protodep descriptors (`protodep.toml`), read so that a project can move to
//! protofetch.
use vstd::prelude::*;

use crate::model::protofetch::descriptor::{
    default_rules, dependency_views, result_view, Dependency as ProtofetchDependency,
    DependencyView, Descriptor, DescriptorView, Rules,
};
use crate::model::protofetch::{
    protocol_named, url_parts, CoordinateView, Coordinate, ModuleName, Protocol, Revision,
    RevisionSpecification, SpecificationView,
};
use crate::model::{invalid_value, missing_key, ParseError, ParseErrorView};
use crate::text::{opt_view, views};
use crate::toml_doc::{
    as_string, as_string_array, parse_toml, spec_parse_toml, string_array_exec, table_find,
    table_lookup, toml_get, toml_get_exec, TomlValue,
};

verus! {

/// A protodep dependency; every field has a default.
#[derive(Debug, PartialEq, Eq)]
pub struct Dependency {
    pub target: String,
    pub protocol: String,
    pub revision: String,
    pub subgroup: Option<String>,
    pub branch: Option<String>,
    pub path: Option<String>,
    pub ignores: Vec<String>,
    pub includes: Vec<String>,
}

/// The content of a protodep dependency.
pub struct ProtodepDependencyView {
    pub target: Seq<char>,
    pub protocol: Seq<char>,
    pub revision: Seq<char>,
    pub subgroup: Option<Seq<char>>,
    pub branch: Option<Seq<char>>,
    pub path: Option<Seq<char>>,
    pub ignores: Seq<Seq<char>>,
    pub includes: Seq<Seq<char>>,
}

impl View for Dependency {
    type V = ProtodepDependencyView;

    open spec fn view(&self) -> ProtodepDependencyView {
        ProtodepDependencyView {
            target: self.target@,
            protocol: self.protocol@,
            revision: self.revision@,
            subgroup: opt_view(self.subgroup),
            branch: opt_view(self.branch),
            path: opt_view(self.path),
            ignores: views(self.ignores@),
            includes: views(self.includes@),
        }
    }
}

/// A protodep descriptor: where the protos go, and the dependencies.
#[derive(Debug, PartialEq, Eq)]
pub struct ProtodepDescriptor {
    pub proto_out_dir: String,
    pub dependencies: Vec<Dependency>,
}

/// The content of a protodep descriptor.
pub struct ProtodepView {
    pub proto_out_dir: Seq<char>,
    pub dependencies: Seq<ProtodepDependencyView>,
}

/// The views of some protodep dependencies.
pub open spec fn protodep_views(v: Seq<Dependency>) -> Seq<ProtodepDependencyView> {
    v.map_values(|d: Dependency| d@)
}

impl View for ProtodepDescriptor {
    type V = ProtodepView;

    open spec fn view(&self) -> ProtodepView {
        ProtodepView {
            proto_out_dir: self.proto_out_dir@,
            dependencies: protodep_views(self.dependencies@),
        }
    }
}

/// A string field with a default: absent gives the empty string.
pub open spec fn string_field(o: Option<TomlValue>) -> Option<Seq<char>> {
    match o {
        None => Some(seq![]),
        Some(v) => as_string(v),
    }
}

/// An optional string field: absent gives nothing (`None` inside `Some`).
pub open spec fn option_field(o: Option<TomlValue>) -> Option<Option<Seq<char>>> {
    match o {
        None => Some(None),
        Some(v) => match as_string(v) {
            Some(s) => Some(Some(s)),
            None => None,
        },
    }
}

/// A list field with a default: absent gives the empty list.
pub open spec fn list_field(o: Option<TomlValue>) -> Option<Seq<Seq<char>>> {
    match o {
        None => Some(seq![]),
        Some(v) => as_string_array(v),
    }
}

/// The protodep dependency a TOML table describes; the first field of the wrong kind
/// otherwise, in the order of the fields.
pub open spec fn protodep_dependency(v: TomlValue) -> Result<ProtodepDependencyView, Seq<char>> {
    let t = string_field(toml_get(v, "target"@));
    let p = string_field(toml_get(v, "protocol"@));
    let r = string_field(toml_get(v, "revision"@));
    let sg = option_field(toml_get(v, "subgroup"@));
    let b = option_field(toml_get(v, "branch"@));
    let pa = option_field(toml_get(v, "path"@));
    let ig = list_field(toml_get(v, "ignores"@));
    let inc = list_field(toml_get(v, "includes"@));
    if !(v is Table) {
        Err("dependencies"@)
    } else if t is None {
        Err("target"@)
    } else if p is None {
        Err("protocol"@)
    } else if r is None {
        Err("revision"@)
    } else if sg is None {
        Err("subgroup"@)
    } else if b is None {
        Err("branch"@)
    } else if pa is None {
        Err("path"@)
    } else if ig is None {
        Err("ignores"@)
    } else if inc is None {
        Err("includes"@)
    } else {
        Ok(
            ProtodepDependencyView {
                target: t->0,
                protocol: p->0,
                revision: r->0,
                subgroup: sg->0,
                branch: b->0,
                path: pa->0,
                ignores: ig->0,
                includes: inc->0,
            },
        )
    }
}

/// The protodep dependencies some TOML values describe; the first problem otherwise.
pub open spec fn protodep_dependencies(items: Seq<TomlValue>) -> Result<
    Seq<ProtodepDependencyView>,
    Seq<char>,
>
    decreases items.len(),
{
    if items.len() == 0 {
        Ok(seq![])
    } else {
        match protodep_dependencies(items.drop_last()) {
            Err(e) => Err(e),
            Ok(ds) => match protodep_dependency(items.last()) {
                Err(e) => Err(e),
                Ok(d) => Ok(ds.push(d)),
            },
        }
    }
}

/// The protodep descriptor a TOML text describes: `proto_outdir` is required and a
/// string; `dependencies`, when it is an array, holds the dependencies (anything else
/// counts as none).
pub open spec fn protodep_from_text(text: Seq<char>) -> Result<ProtodepView, ParseErrorView> {
    match spec_parse_toml(text) {
        Err(m) => Err(ParseErrorView::Toml(m@)),
        Ok(t) => match table_lookup(t@, "proto_outdir"@) {
            None => Err(ParseErrorView::MissingKey("proto_outdir"@)),
            Some(v) => match as_string(v) {
                None => Err(ParseErrorView::InvalidValue("proto_outdir"@)),
                Some(dir) => match table_lookup(t@, "dependencies"@) {
                    Some(TomlValue::Array(items)) => match protodep_dependencies(items@) {
                        Ok(ds) => Ok(ProtodepView { proto_out_dir: dir, dependencies: ds }),
                        Err(k) => Err(ParseErrorView::InvalidValue(k)),
                    },
                    _ => Ok(ProtodepView { proto_out_dir: dir, dependencies: seq![] }),
                },
            },
        },
    }
}

fn string_field_exec(v: &TomlValue, key: &str) -> (r: Result<String, ParseError>)
    ensures
        match string_field(toml_get(*v, key@)) {
            Some(s) => r matches Ok(x) && x@ == s,
            None => r matches Err(e) && e@ == ParseErrorView::InvalidValue(key@),
        },
{
    match toml_get_exec(v, key) {
        None => Ok(String::new()),
        Some(TomlValue::String(s)) => Ok(s.clone()),
        Some(_) => Err(invalid_value(key)),
    }
}

fn option_field_exec(v: &TomlValue, key: &str) -> (r: Result<Option<String>, ParseError>)
    ensures
        match option_field(toml_get(*v, key@)) {
            Some(s) => r matches Ok(x) && opt_view(x) == s,
            None => r matches Err(e) && e@ == ParseErrorView::InvalidValue(key@),
        },
{
    match toml_get_exec(v, key) {
        None => Ok(None),
        Some(TomlValue::String(s)) => Ok(Some(s.clone())),
        Some(_) => Err(invalid_value(key)),
    }
}

fn list_field_exec(v: &TomlValue, key: &str) -> (r: Result<Vec<String>, ParseError>)
    ensures
        match list_field(toml_get(*v, key@)) {
            Some(s) => r matches Ok(x) && views(x@) == s,
            None => r matches Err(e) && e@ == ParseErrorView::InvalidValue(key@),
        },
{
    match toml_get_exec(v, key) {
        None => {
            let r: Vec<String> = Vec::new();
            assert(views(r@) =~= Seq::<Seq<char>>::empty());
            Ok(r)
        },
        Some(x) => match string_array_exec(x) {
            Some(ss) => Ok(ss),
            None => Err(invalid_value(key)),
        },
    }
}

/// Reads a protodep dependency from a TOML table.
fn parse_protodep_dependency(v: &TomlValue) -> (r: Result<Dependency, ParseError>)
    ensures
        match protodep_dependency(*v) {
            Ok(d) => r matches Ok(x) && x@ == d,
            Err(k) => r matches Err(e) && e@ == ParseErrorView::InvalidValue(k),
        },
{
    match v {
        TomlValue::Table(_) => {},
        _ => return Err(invalid_value("dependencies")),
    }
    let target = match string_field_exec(v, "target") {
        Ok(x) => x,
        Err(e) => return Err(e),
    };
    let protocol = match string_field_exec(v, "protocol") {
        Ok(x) => x,
        Err(e) => return Err(e),
    };
    let revision = match string_field_exec(v, "revision") {
        Ok(x) => x,
        Err(e) => return Err(e),
    };
    let subgroup = match option_field_exec(v, "subgroup") {
        Ok(x) => x,
        Err(e) => return Err(e),
    };
    let branch = match option_field_exec(v, "branch") {
        Ok(x) => x,
        Err(e) => return Err(e),
    };
    let path = match option_field_exec(v, "path") {
        Ok(x) => x,
        Err(e) => return Err(e),
    };
    let ignores = match list_field_exec(v, "ignores") {
        Ok(x) => x,
        Err(e) => return Err(e),
    };
    let includes = match list_field_exec(v, "includes") {
        Ok(x) => x,
        Err(e) => return Err(e),
    };
    Ok(Dependency { target, protocol, revision, subgroup, branch, path, ignores, includes })
}

proof fn lemma_protodep_prefix_err(items: Seq<TomlValue>, n: int)
    requires
        0 <= n <= items.len(),
        protodep_dependencies(items.take(n)) is Err,
    ensures
        protodep_dependencies(items) == protodep_dependencies(items.take(n)),
    decreases items.len() - n,
{
    if n < items.len() {
        assert(items.take(n + 1).drop_last() == items.take(n));
        lemma_protodep_prefix_err(items, n + 1);
    } else {
        assert(items.take(n) == items);
    }
}

fn protodep_deps(items: &Vec<TomlValue>) -> (r: Result<Vec<Dependency>, ParseError>)
    ensures
        match protodep_dependencies(items@) {
            Ok(ds) => r matches Ok(x) && protodep_views(x@) == ds,
            Err(k) => r matches Err(e) && e@ == ParseErrorView::InvalidValue(k),
        },
{
    let mut deps: Vec<Dependency> = Vec::new();
    let mut i: usize = 0;
    assert(items@.take(0) =~= Seq::<TomlValue>::empty());
    assert(protodep_views(deps@) =~= Seq::<ProtodepDependencyView>::empty());
    while i < items.len()
        invariant
            i <= items.len(),
            protodep_dependencies(items@.take(i as int)) == Ok::<
                Seq<ProtodepDependencyView>,
                Seq<char>,
            >(protodep_views(deps@)),
        decreases items.len() - i,
    {
        assert(items@.take(i + 1).drop_last() == items@.take(i as int));
        assert(items@.take(i + 1).last() == items@[i as int]);
        let ghost before = protodep_views(deps@);
        match parse_protodep_dependency(&items[i]) {
            Ok(d) => {
                let ghost dv = d@;
                deps.push(d);
                assert(protodep_views(deps@) =~= before.push(dv));
            },
            Err(e) => {
                proof {
                    lemma_protodep_prefix_err(items@, i as int + 1);
                }
                return Err(e);
            },
        }
        i = i + 1;
    }
    assert(items@.take(items.len() as int) == items@);
    Ok(deps)
}

impl ProtodepDescriptor {
    /// Reads a protodep descriptor from its text (see `protodep_from_text`).
    pub fn from_toml_str(data: &str) -> (r: Result<ProtodepDescriptor, ParseError>)
        ensures
            result_view(r) == protodep_from_text(data@),
    {
        let t = match parse_toml(data) {
            Ok(t) => t,
            Err(m) => return Err(ParseError::Toml(m)),
        };
        let dir = match table_find(&t, "proto_outdir") {
            None => return Err(missing_key("proto_outdir")),
            Some(i) => match &t[i].1 {
                TomlValue::String(s) => s.clone(),
                _ => return Err(invalid_value("proto_outdir")),
            },
        };
        let deps: Vec<Dependency> = match table_find(&t, "dependencies") {
            Some(j) => match &t[j].1 {
                TomlValue::Array(items) => match protodep_deps(items) {
                    Ok(ds) => ds,
                    Err(e) => return Err(e),
                },
                _ => {
                    let ds: Vec<Dependency> = Vec::new();
                    assert(protodep_views(ds@) =~= Seq::<ProtodepDependencyView>::empty());
                    ds
                },
            },
            None => {
                let ds: Vec<Dependency> = Vec::new();
                assert(protodep_views(ds@) =~= Seq::<ProtodepDependencyView>::empty());
                ds
            },
        };
        Ok(ProtodepDescriptor { proto_out_dir: dir, dependencies: deps })
    }
}

/// The protofetch dependency a protodep dependency becomes: named after its repository,
/// at the coordinate its target names with its protocol, pinned to its revision, with
/// default rules. Its branch, subgroup, path, ignores and includes are not carried over.
pub open spec fn migrated_dependency(d: ProtodepDependencyView) -> Result<DependencyView, ParseErrorView> {
    match protocol_named(d.protocol) {
        None => Err(ParseErrorView::InvalidProtocol(crate::text::ascii_lower_seq(d.protocol))),
        Some(p) => match url_parts(d.target) {
            None => Err(ParseErrorView::MissingUrlComponent("forge"@, d.target)),
            Some((f, o, r)) => Ok(
                DependencyView {
                    name: r,
                    coordinate: CoordinateView { forge: f, organization: o, repository: r, protocol: Some(p) },
                    specification: SpecificationView { revision: Some(d.revision), branch: None },
                    rules: default_rules(),
                },
            ),
        },
    }
}

/// The protofetch dependencies of some protodep dependencies; the first problem
/// otherwise.
pub open spec fn migrated_dependencies(ds: Seq<ProtodepDependencyView>) -> Result<
    Seq<DependencyView>,
    ParseErrorView,
>
    decreases ds.len(),
{
    if ds.len() == 0 {
        Ok(seq![])
    } else {
        match migrated_dependencies(ds.drop_last()) {
            Err(e) => Err(e),
            Ok(xs) => match migrated_dependency(ds.last()) {
                Err(e) => Err(e),
                Ok(x) => Ok(xs.push(x)),
            },
        }
    }
}

/// The protofetch descriptor a protodep descriptor becomes: named `generated`,
/// described as `Generated from protodep file`, with the same output directory.
pub open spec fn migrated_descriptor(p: ProtodepView) -> Result<DescriptorView, ParseErrorView> {
    match migrated_dependencies(p.dependencies) {
        Err(e) => Err(e),
        Ok(ds) => Ok(
            DescriptorView {
                name: "generated"@,
                description: Some("Generated from protodep file"@),
                proto_out_dir: Some(p.proto_out_dir),
                dependencies: ds,
            },
        ),
    }
}

fn migrate_dependency(d: &Dependency) -> (r: Result<ProtofetchDependency, ParseError>)
    ensures
        result_view(r) == migrated_dependency(d@),
{
    let protocol = match Protocol::parse(d.protocol.as_str()) {
        Ok(p) => p,
        Err(e) => return Err(e),
    };
    let coordinate = match Coordinate::from_url_protocol(d.target.as_str(), Some(protocol)) {
        Ok(c) => c,
        Err(e) => {
            proof {
                reveal_strlit("forge");
                assert("forge"@ == seq!['f', 'o', 'r', 'g', 'e']);
            }
            return Err(e);
        },
    };
    let name = ModuleName::new(coordinate.repository.clone());
    let rules = Rules::default();
    Ok(
        ProtofetchDependency {
            name,
            coordinate,
            specification: RevisionSpecification {
                revision: Revision::pinned(d.revision.clone()),
                branch: None,
            },
            rules,
        },
    )
}

proof fn lemma_migrated_prefix_err(ds: Seq<ProtodepDependencyView>, n: int)
    requires
        0 <= n <= ds.len(),
        migrated_dependencies(ds.take(n)) is Err,
    ensures
        migrated_dependencies(ds) == migrated_dependencies(ds.take(n)),
    decreases ds.len() - n,
{
    if n < ds.len() {
        assert(ds.take(n + 1).drop_last() == ds.take(n));
        lemma_migrated_prefix_err(ds, n + 1);
    } else {
        assert(ds.take(n) == ds);
    }
}

impl ProtodepDescriptor {
    /// The protofetch descriptor the protodep descriptor becomes (see
    /// `migrated_descriptor`).
    pub fn into_proto_fetch(self) -> (r: Result<Descriptor, ParseError>)
        ensures
            result_view(r) == migrated_descriptor(self@),
    {
        let ghost pv = protodep_views(self.dependencies@);
        let mut out: Vec<ProtofetchDependency> = Vec::new();
        let mut i: usize = 0;
        assert(pv.take(0) =~= Seq::<ProtodepDependencyView>::empty());
        assert(dependency_views(out@) =~= Seq::<DependencyView>::empty());
        while i < self.dependencies.len()
            invariant
                i <= self.dependencies.len(),
                pv == protodep_views(self.dependencies@),
                migrated_dependencies(pv.take(i as int)) == Ok::<Seq<DependencyView>, ParseErrorView>(
                    dependency_views(out@),
                ),
            decreases self.dependencies.len() - i,
        {
            assert(pv.take(i + 1).drop_last() == pv.take(i as int));
            assert(pv.take(i + 1).last() == self.dependencies@[i as int]@);
            let ghost before = dependency_views(out@);
            match migrate_dependency(&self.dependencies[i]) {
                Ok(d) => {
                    let ghost dv = d@;
                    out.push(d);
                    assert(dependency_views(out@) =~= before.push(dv));
                },
                Err(e) => {
                    proof {
                        lemma_migrated_prefix_err(pv, i as int + 1);
                    }
                    return Err(e);
                },
            }
            i = i + 1;
        }
        assert(pv.take(self.dependencies.len() as int) == pv);
        Ok(
            Descriptor {
                name: ModuleName::from_str("generated"),
                description: Some(String::from_str("Generated from protodep file")),
                proto_out_dir: Some(self.proto_out_dir),
                dependencies: out,
            },
        )
    }
}

} // verus!
