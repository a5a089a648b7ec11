//! Lock files (`protofetch.lock`): the commit each dependency was resolved to.
use vstd::prelude::*;

use super::descriptor::{optional_string, result_view};
use super::{
    coordinate_url, protocol_name, Coordinate, CoordinateView, ModuleName, Protocol, Revision,
    RevisionSpecification, SpecificationView,
};
use crate::model::{invalid_value, missing_key, ParseError, ParseErrorView};
use crate::text::{opt_view, seq_lt, str_eq};
use crate::toml_doc::{
    as_string, entries_view, items_view, parse_toml, spec_parse_toml, spec_toml_pretty, table_find,
    table_lookup, toml_get, toml_get_exec, toml_to_string_pretty, toml_view, TomlValue, TomlView,
};

verus! {

/// The lock file format this library reads and writes.
pub const VERSION: i64 = 2;

/// Where a locked dependency was fetched from: `forge/organization/repository` and
/// the protocol, if one was given.
#[derive(Debug, PartialEq, Eq)]
pub struct LockedCoordinate {
    pub url: String,
    pub protocol: Option<Protocol>,
}

impl View for LockedCoordinate {
    type V = (Seq<char>, Option<Protocol>);

    open spec fn view(&self) -> (Seq<char>, Option<Protocol>) {
        (self.url@, self.protocol)
    }
}

impl Clone for LockedCoordinate {
    fn clone(&self) -> (r: Self)
        ensures
            r@ == self@,
    {
        LockedCoordinate { url: self.url.clone(), protocol: self.protocol }
    }
}

/// The locked form of a coordinate.
pub open spec fn locked_coordinate(c: CoordinateView) -> (Seq<char>, Option<Protocol>) {
    (coordinate_url(c), c.protocol)
}

/// How a locked coordinate is shown: the url, then the protocol in brackets.
pub open spec fn locked_coordinate_text(c: (Seq<char>, Option<Protocol>)) -> Seq<char> {
    match c.1 {
        None => c.0,
        Some(p) => c.0 + seq![' ', '('] + protocol_name(p) + seq![')'],
    }
}

impl LockedCoordinate {
    /// The locked form of a coordinate.
    pub fn from_coordinate(value: &Coordinate) -> (r: LockedCoordinate)
        ensures
            r@ == locked_coordinate(value@),
    {
        LockedCoordinate { url: value.to_path(), protocol: value.protocol }
    }

    /// The url, followed by ` (protocol)` when there is one.
    pub fn display(&self) -> (r: String)
        ensures
            r@ == locked_coordinate_text(self@),
    {
        let mut s = self.url.clone();
        if let Some(p) = self.protocol {
            crate::text::push_char(&mut s, ' ');
            crate::text::push_char(&mut s, '(');
            s.append(p.as_str());
            crate::text::push_char(&mut s, ')');
        }
        s
    }

    /// The same url and protocol.
    pub fn same(&self, other: &LockedCoordinate) -> (r: bool)
        ensures
            r == (self@ == other@),
    {
        let p = match (self.protocol, other.protocol) {
            (None, None) => true,
            (Some(Protocol::Https), Some(Protocol::Https)) => true,
            (Some(Protocol::Ssh), Some(Protocol::Ssh)) => true,
            _ => false,
        };
        p && str_eq(self.url.as_str(), other.url.as_str())
    }
}

/// A dependency as the lock file records it.
#[derive(Debug, PartialEq, Eq)]
pub struct LockedDependency {
    pub name: ModuleName,
    pub coordinate: LockedCoordinate,
    pub specification: RevisionSpecification,
    pub commit_hash: String,
}

/// The content of a locked dependency.
pub struct LockedDependencyView {
    pub name: Seq<char>,
    pub coordinate: (Seq<char>, Option<Protocol>),
    pub specification: SpecificationView,
    pub commit_hash: Seq<char>,
}

impl View for LockedDependency {
    type V = LockedDependencyView;

    open spec fn view(&self) -> LockedDependencyView {
        LockedDependencyView {
            name: self.name@,
            coordinate: self.coordinate@,
            specification: self.specification@,
            commit_hash: self.commit_hash@,
        }
    }
}

impl Clone for LockedDependency {
    fn clone(&self) -> (r: Self)
        ensures
            r@ == self@,
    {
        LockedDependency {
            name: self.name.clone(),
            coordinate: self.coordinate.clone(),
            specification: self.specification.clone(),
            commit_hash: self.commit_hash.clone(),
        }
    }
}

impl LockedDependency {
    /// The same content.
    pub fn same(&self, other: &LockedDependency) -> (r: bool)
        ensures
            r == (self@ == other@),
    {
        self.name.same(&other.name) && self.coordinate.same(&other.coordinate)
            && self.specification.same(&other.specification) && str_eq(
            self.commit_hash.as_str(),
            other.commit_hash.as_str(),
        )
    }
}

/// The views of some locked dependencies.
pub open spec fn locked_views(v: Seq<LockedDependency>) -> Seq<LockedDependencyView> {
    v.map_values(|d: LockedDependency| d@)
}

/// The locked dependencies of a module.
#[derive(Debug, PartialEq, Eq)]
pub struct LockFile {
    pub dependencies: Vec<LockedDependency>,
}

impl View for LockFile {
    type V = Seq<LockedDependencyView>;

    open spec fn view(&self) -> Seq<LockedDependencyView> {
        locked_views(self.dependencies@)
    }
}

impl Clone for LockFile {
    fn clone(&self) -> (r: Self)
        ensures
            r@ == self@,
    {
        let v = self.dependencies.clone();
        assert(locked_views(v@) =~= locked_views(self.dependencies@)) by {
            assert forall|k: int| 0 <= k < v@.len() implies v@[k]@ == self.dependencies@[k]@ by {
                assert(cloned::<LockedDependency>(self.dependencies@[k], v@[k]));
            }
        }
        LockFile { dependencies: v }
    }
}

/// The protocol a lock file entry names: absent, or exactly `https` or `ssh`.
pub open spec fn locked_protocol(o: Option<TomlValue>) -> Option<Option<Protocol>> {
    match o {
        None => Some(None),
        Some(v) => match as_string(v) {
            Some(s) => if s == "https"@ {
                Some(Some(Protocol::Https))
            } else if s == "ssh"@ {
                Some(Some(Protocol::Ssh))
            } else {
                None
            },
            None => None,
        },
    }
}

/// The locked dependency a TOML table describes: strings `name`, `url` and
/// `commit_hash`, and optional `protocol`, `revision` and `branch`; the first problem
/// met otherwise, in that order.
pub open spec fn locked_dependency_from_toml(v: TomlValue) -> Result<
    LockedDependencyView,
    ParseErrorView,
> {
    let name_v = toml_get(v, "name"@);
    let url_v = toml_get(v, "url"@);
    let protocol_v = toml_get(v, "protocol"@);
    let revision_v = toml_get(v, "revision"@);
    let branch_v = toml_get(v, "branch"@);
    let hash_v = toml_get(v, "commit_hash"@);
    if !(v is Table) {
        Err(ParseErrorView::InvalidValue("dependencies"@))
    } else if name_v is None {
        Err(ParseErrorView::MissingKey("name"@))
    } else if as_string(name_v->0) is None {
        Err(ParseErrorView::InvalidValue("name"@))
    } else if url_v is None {
        Err(ParseErrorView::MissingKey("url"@))
    } else if as_string(url_v->0) is None {
        Err(ParseErrorView::InvalidValue("url"@))
    } else if locked_protocol(protocol_v) is None {
        Err(ParseErrorView::InvalidValue("protocol"@))
    } else if revision_v is Some && as_string(revision_v->0) is None {
        Err(ParseErrorView::InvalidValue("revision"@))
    } else if branch_v is Some && as_string(branch_v->0) is None {
        Err(ParseErrorView::InvalidValue("branch"@))
    } else if hash_v is None {
        Err(ParseErrorView::MissingKey("commit_hash"@))
    } else if as_string(hash_v->0) is None {
        Err(ParseErrorView::InvalidValue("commit_hash"@))
    } else {
        Ok(
            LockedDependencyView {
                name: as_string(name_v->0)->0,
                coordinate: (as_string(url_v->0)->0, locked_protocol(protocol_v)->0),
                specification: SpecificationView {
                    revision: optional_string(revision_v),
                    branch: optional_string(branch_v),
                },
                commit_hash: as_string(hash_v->0)->0,
            },
        )
    }
}

/// The locked dependencies some TOML tables describe, or the first problem met.
pub open spec fn locked_dependencies_from(items: Seq<TomlValue>) -> Result<
    Seq<LockedDependencyView>,
    ParseErrorView,
>
    decreases items.len(),
{
    if items.len() == 0 {
        Ok(seq![])
    } else {
        match locked_dependencies_from(items.drop_last()) {
            Err(e) => Err(e),
            Ok(ds) => match locked_dependency_from_toml(items.last()) {
                Err(e) => Err(e),
                Ok(d) => Ok(ds.push(d)),
            },
        }
    }
}

/// The lock file a TOML table describes: `version` must be 2 and `dependencies` an
/// array of locked dependencies.
pub open spec fn lockfile_from_table(t: Seq<(String, TomlValue)>) -> Result<
    Seq<LockedDependencyView>,
    ParseErrorView,
> {
    match table_lookup(t, "version"@) {
        None => Err(ParseErrorView::OldLockFileVersion(1)),
        Some(TomlValue::Integer(n)) if n == VERSION => match table_lookup(t, "dependencies"@) {
            None => Err(ParseErrorView::MissingKey("dependencies"@)),
            Some(TomlValue::Array(items)) => locked_dependencies_from(items@),
            Some(_) => Err(ParseErrorView::InvalidValue("dependencies"@)),
        },
        Some(other) => Err(ParseErrorView::UnsupportedLockFileVersion(other)),
    }
}

/// The lock file a TOML text describes.
pub open spec fn lockfile_from_text(text: Seq<char>) -> Result<
    Seq<LockedDependencyView>,
    ParseErrorView,
> {
    match spec_parse_toml(text) {
        Err(m) => Err(ParseErrorView::Toml(m@)),
        Ok(t) => lockfile_from_table(t@),
    }
}

fn get_string(v: &TomlValue, key: &str) -> (r: Result<String, ParseError>)
    ensures
        match toml_get(*v, key@) {
            None => r matches Err(e) && e@ == ParseErrorView::MissingKey(key@),
            Some(x) => match as_string(x) {
                Some(s) => r matches Ok(y) && y@ == s,
                None => r matches Err(e) && e@ == ParseErrorView::InvalidValue(key@),
            },
        },
{
    match toml_get_exec(v, key) {
        None => Err(missing_key(key)),
        Some(TomlValue::String(s)) => Ok(s.clone()),
        Some(_) => Err(invalid_value(key)),
    }
}

fn get_optional_string(v: &TomlValue, key: &str) -> (r: Result<Option<String>, ParseError>)
    ensures
        match toml_get(*v, key@) {
            None => r matches Ok(None),
            Some(x) => match as_string(x) {
                Some(s) => r matches Ok(Some(y)) && y@ == s,
                None => r matches Err(e) && e@ == ParseErrorView::InvalidValue(key@),
            },
        },
{
    match toml_get_exec(v, key) {
        None => Ok(None),
        Some(TomlValue::String(s)) => Ok(Some(s.clone())),
        Some(_) => Err(invalid_value(key)),
    }
}

/// Reads a locked dependency from a TOML table.
pub fn locked_dependency_from_value(v: &TomlValue) -> (r: Result<LockedDependency, ParseError>)
    ensures
        result_view(r) == locked_dependency_from_toml(*v),
{
    match v {
        TomlValue::Table(_) => {},
        _ => return Err(invalid_value("dependencies")),
    }
    let name = match get_string(v, "name") {
        Ok(s) => s,
        Err(e) => return Err(e),
    };
    let url = match get_string(v, "url") {
        Ok(s) => s,
        Err(e) => return Err(e),
    };
    let protocol = match toml_get_exec(v, "protocol") {
        None => None,
        Some(TomlValue::String(s)) => {
            if str_eq(s.as_str(), "https") {
                Some(Protocol::Https)
            } else if str_eq(s.as_str(), "ssh") {
                Some(Protocol::Ssh)
            } else {
                return Err(invalid_value("protocol"));
            }
        },
        Some(_) => return Err(invalid_value("protocol")),
    };
    let revision = match get_optional_string(v, "revision") {
        Ok(Some(r)) => Revision::Pinned { revision: r },
        Ok(None) => Revision::Arbitrary,
        Err(e) => return Err(e),
    };
    let branch = match get_optional_string(v, "branch") {
        Ok(b) => b,
        Err(e) => return Err(e),
    };
    let commit_hash = match get_string(v, "commit_hash") {
        Ok(s) => s,
        Err(e) => return Err(e),
    };
    Ok(
        LockedDependency {
            name: ModuleName::new(name),
            coordinate: LockedCoordinate { url, protocol },
            specification: RevisionSpecification { revision, branch },
            commit_hash,
        },
    )
}

proof fn lemma_locked_prefix_err(items: Seq<TomlValue>, n: int)
    requires
        0 <= n <= items.len(),
        locked_dependencies_from(items.take(n)) is Err,
    ensures
        locked_dependencies_from(items) == locked_dependencies_from(items.take(n)),
    decreases items.len() - n,
{
    if n < items.len() {
        assert(items.take(n + 1).drop_last() == items.take(n));
        lemma_locked_prefix_err(items, n + 1);
    } else {
        assert(items.take(n) == items);
    }
}

fn locked_dependencies_exec(items: &Vec<TomlValue>) -> (r: Result<Vec<LockedDependency>, ParseError>)
    ensures
        match r {
            Ok(v) => locked_dependencies_from(items@) == Ok::<
                Seq<LockedDependencyView>,
                ParseErrorView,
            >(locked_views(v@)),
            Err(e) => locked_dependencies_from(items@) == Err::<
                Seq<LockedDependencyView>,
                ParseErrorView,
            >(e@),
        },
{
    let mut out: Vec<LockedDependency> = Vec::new();
    let mut i: usize = 0;
    assert(items@.take(0) =~= Seq::<TomlValue>::empty());
    assert(locked_views(out@) =~= Seq::<LockedDependencyView>::empty());
    while i < items.len()
        invariant
            i <= items.len(),
            locked_dependencies_from(items@.take(i as int)) == Ok::<
                Seq<LockedDependencyView>,
                ParseErrorView,
            >(locked_views(out@)),
        decreases items.len() - i,
    {
        assert(items@.take(i + 1).drop_last() == items@.take(i as int));
        assert(items@.take(i + 1).last() == items@[i as int]);
        let ghost before = locked_views(out@);
        match locked_dependency_from_value(&items[i]) {
            Ok(d) => {
                let ghost dv = d@;
                out.push(d);
                assert(locked_views(out@) =~= before.push(dv));
            },
            Err(e) => {
                proof {
                    lemma_locked_prefix_err(items@, i as int + 1);
                }
                return Err(e);
            },
        }
        i = i + 1;
    }
    assert(items@.take(items.len() as int) == items@);
    Ok(out)
}

/// The TOML table a locked dependency is written as: `name`, `url`, then `protocol`,
/// `revision` and `branch` where present, then `commit_hash`.
pub open spec fn locked_dependency_table(d: LockedDependencyView) -> Seq<(Seq<char>, TomlView)> {
    seq![("name"@, TomlView::String(d.name)), ("url"@, TomlView::String(d.coordinate.0))]
        + match d.coordinate.1 {
        Some(p) => seq![("protocol"@, TomlView::String(protocol_name(p)))],
        None => seq![],
    } + match d.specification.revision {
        Some(r) => seq![("revision"@, TomlView::String(r))],
        None => seq![],
    } + match d.specification.branch {
        Some(b) => seq![("branch"@, TomlView::String(b))],
        None => seq![],
    } + seq![("commit_hash"@, TomlView::String(d.commit_hash))]
}

/// The tables of some locked dependencies.
pub open spec fn locked_tables(ds: Seq<LockedDependencyView>) -> Seq<TomlView>
    decreases ds.len(),
{
    if ds.len() == 0 {
        seq![]
    } else {
        locked_tables(ds.drop_last()).push(TomlView::Table(locked_dependency_table(ds.last())))
    }
}

/// The TOML table a lock file is written as: `version = 2`, then its dependencies.
pub open spec fn lockfile_table(ds: Seq<LockedDependencyView>) -> Seq<(Seq<char>, TomlView)> {
    seq![("version"@, TomlView::Integer(VERSION)), ("dependencies"@, TomlView::Array(locked_tables(ds)))]
}

fn push_entry(t: &mut Vec<(String, TomlValue)>, k: &str, v: TomlValue)
    ensures
        entries_view(final(t)@) == entries_view(old(t)@).push((k@, toml_view(v))),
{
    let ks = String::from_str(k);
    let ghost vv = toml_view(v);
    t.push((ks, v));
    assert(t@.drop_last() == old(t)@);
    assert(t@.last().0@ == k@);
}

fn locked_dependency_to_value(d: &LockedDependency) -> (r: TomlValue)
    ensures
        toml_view(r) == TomlView::Table(locked_dependency_table(d@)),
{
    let mut t: Vec<(String, TomlValue)> = Vec::new();
    push_entry(&mut t, "name", TomlValue::String(d.name.display()));
    push_entry(&mut t, "url", TomlValue::String(d.coordinate.url.clone()));
    if let Some(p) = d.coordinate.protocol {
        push_entry(&mut t, "protocol", TomlValue::String(String::from_str(p.as_str())));
    }
    if let Revision::Pinned { revision } = &d.specification.revision {
        push_entry(&mut t, "revision", TomlValue::String(revision.clone()));
    }
    if let Some(b) = &d.specification.branch {
        push_entry(&mut t, "branch", TomlValue::String(b.clone()));
    }
    push_entry(&mut t, "commit_hash", TomlValue::String(d.commit_hash.clone()));
    assert(entries_view(t@) =~= locked_dependency_table(d@));
    TomlValue::Table(t)
}

proof fn lemma_items_view_push(s: Seq<TomlValue>, v: TomlValue)
    ensures
        items_view(s.push(v)) == items_view(s).push(toml_view(v)),
{
    assert(s.push(v).drop_last() == s);
}

/// A value whose content is a string is that string.
proof fn lemma_string_value(v: TomlValue, x: Seq<char>)
    requires
        toml_view(v) == TomlView::String(x),
    ensures
        as_string(v) == Some(x),
{
    match v {
        TomlValue::String(s) => {},
        TomlValue::Array(a) => {},
        TomlValue::Table(e) => {},
        _ => {},
    }
}

/// A locked dependency read back from the table it is written as.
proof fn lemma_locked_entry_round_trip(v: TomlValue, d: LockedDependencyView)
    requires
        toml_view(v) == TomlView::Table(locked_dependency_table(d)),
    ensures
        locked_dependency_from_toml(v) == Ok::<LockedDependencyView, ParseErrorView>(d),
{
    let s = locked_dependency_table(d);
    let e = match v {
        TomlValue::Table(e) => e@,
        _ => Seq::empty(),
    };
    assert(v is Table) by {
        match v {
            TomlValue::Table(_) => {},
            TomlValue::Array(_) => {},
            _ => {},
        }
    }
    assert(entries_view(e) == s);
    crate::toml_doc::lemma_entries_view_index(e);
    reveal_strlit("name");
    reveal_strlit("url");
    reveal_strlit("protocol");
    reveal_strlit("revision");
    reveal_strlit("branch");
    reveal_strlit("commit_hash");
    let np: int = if d.coordinate.1 is Some { 1 } else { 0 };
    let nr: int = if d.specification.revision is Some { 1 } else { 0 };
    let nb: int = if d.specification.branch is Some { 1 } else { 0 };
    assert(s.len() == 3 + np + nr + nb);
    assert(e.len() == s.len());
    assert forall|j: int| 0 <= j < e.len() implies (#[trigger] e[j]).0@ == s[j].0 && toml_view(e[j].1) == s[j].1 by {
        assert(entries_view(e)[j] == (e[j].0@, toml_view(e[j].1)));
    }
    // The key of each entry, by its first character.
    assert(s[0].0 == "name"@ && s[1].0 == "url"@);
    assert(s[2 + np + nr + nb].0 == "commit_hash"@);
    assert(s[0].1 == TomlView::String(d.name));
    assert(s[1].1 == TomlView::String(d.coordinate.0));
    assert(s[2 + np + nr + nb].1 == TomlView::String(d.commit_hash));
    if np == 1 {
        assert(s[2].0 == "protocol"@ && s[2].1 == TomlView::String(protocol_name(d.coordinate.1->0)));
    }
    if nr == 1 {
        assert(s[2 + np].0 == "revision"@ && s[2 + np].1 == TomlView::String(d.specification.revision->0));
    }
    if nb == 1 {
        assert(s[2 + np + nr].0 == "branch"@ && s[2 + np + nr].1 == TomlView::String(d.specification.branch->0));
    }
    assert forall|j: int| 0 <= j < s.len() implies {
        let c = (#[trigger] s[j]).0[0];
        &&& j == 0 <==> c == 'n'
        &&& j == 1 <==> c == 'u'
        &&& (np == 1 && j == 2) <==> c == 'p'
        &&& (nr == 1 && j == 2 + np) <==> c == 'r'
        &&& (nb == 1 && j == 2 + np + nr) <==> c == 'b'
        &&& j == 2 + np + nr + nb <==> c == 'c'
    } by {}
    crate::toml_doc::lemma_table_lookup_at(e, "name"@, 0);
    lemma_string_value(e[0].1, d.name);
    crate::toml_doc::lemma_table_lookup_at(e, "url"@, 1);
    lemma_string_value(e[1].1, d.coordinate.0);
    let ic = 2 + np + nr + nb;
    assert forall|j: int| 0 <= j < ic implies (#[trigger] e[j]).0@ != "commit_hash"@ by {
        assert(e[j].0@[0] != 'c');
    }
    crate::toml_doc::lemma_table_lookup_at(e, "commit_hash"@, ic);
    lemma_string_value(e[ic].1, d.commit_hash);
    if np == 1 {
        assert forall|j: int| 0 <= j < 2 implies (#[trigger] e[j]).0@ != "protocol"@ by {
            assert(e[j].0@[0] != 'p');
        }
        crate::toml_doc::lemma_table_lookup_at(e, "protocol"@, 2);
        lemma_string_value(e[2].1, protocol_name(d.coordinate.1->0));
        reveal_strlit("https");
        reveal_strlit("ssh");
        assert(super::https_chars() =~= "https"@);
        assert(super::ssh_chars() =~= "ssh"@);
    } else {
        assert forall|j: int| 0 <= j < e.len() implies (#[trigger] e[j]).0@ != "protocol"@ by {
            assert(e[j].0@[0] != 'p');
        }
        crate::toml_doc::lemma_table_lookup_absent(e, "protocol"@);
    }
    if nr == 1 {
        assert forall|j: int| 0 <= j < 2 + np implies (#[trigger] e[j]).0@ != "revision"@ by {
            assert(e[j].0@[0] != 'r');
        }
        crate::toml_doc::lemma_table_lookup_at(e, "revision"@, 2 + np);
        lemma_string_value(e[2 + np].1, d.specification.revision->0);
    } else {
        assert forall|j: int| 0 <= j < e.len() implies (#[trigger] e[j]).0@ != "revision"@ by {
            assert(e[j].0@[0] != 'r');
        }
        crate::toml_doc::lemma_table_lookup_absent(e, "revision"@);
    }
    if nb == 1 {
        assert forall|j: int| 0 <= j < 2 + np + nr implies (#[trigger] e[j]).0@ != "branch"@ by {
            assert(e[j].0@[0] != 'b');
        }
        crate::toml_doc::lemma_table_lookup_at(e, "branch"@, 2 + np + nr);
        lemma_string_value(e[2 + np + nr].1, d.specification.branch->0);
    } else {
        assert forall|j: int| 0 <= j < e.len() implies (#[trigger] e[j]).0@ != "branch"@ by {
            assert(e[j].0@[0] != 'b');
        }
        crate::toml_doc::lemma_table_lookup_absent(e, "branch"@);
    }
}

/// The locked dependencies read back from the tables they are written as.
proof fn lemma_locked_entries_round_trip(items: Seq<TomlValue>, ds: Seq<LockedDependencyView>)
    requires
        items_view(items) == locked_tables(ds),
    ensures
        locked_dependencies_from(items) == Ok::<Seq<LockedDependencyView>, ParseErrorView>(ds),
    decreases ds.len(),
{
    crate::toml_doc::lemma_items_view_index(items);
    lemma_locked_tables_len(ds);
    if ds.len() > 0 {
        let last = items.last();
        assert(items_view(items) == items_view(items.drop_last()).push(toml_view(last)));
        assert(items_view(items)[items.len() - 1] == toml_view(last));
        assert(locked_tables(ds)[ds.len() - 1] == TomlView::Table(locked_dependency_table(ds.last())));
        assert(locked_tables(ds) == locked_tables(ds.drop_last()).push(
            TomlView::Table(locked_dependency_table(ds.last())),
        ));
        assert(items_view(items.drop_last()) =~= items_view(items).drop_last());
        assert(locked_tables(ds.drop_last()) =~= locked_tables(ds).drop_last());
        lemma_locked_entries_round_trip(items.drop_last(), ds.drop_last());
        lemma_locked_entry_round_trip(last, ds.last());
        assert(items.len() > 0);
        assert(locked_dependencies_from(items) == Ok::<Seq<LockedDependencyView>, ParseErrorView>(
            ds.drop_last().push(ds.last()),
        ));
        assert(ds.drop_last().push(ds.last()) =~= ds);
    } else {
        assert(items.len() == 0);
        assert(ds =~= Seq::<LockedDependencyView>::empty());
    }
}

proof fn lemma_locked_tables_len(ds: Seq<LockedDependencyView>)
    ensures
        locked_tables(ds).len() == ds.len(),
    decreases ds.len(),
{
    if ds.len() > 0 {
        lemma_locked_tables_len(ds.drop_last());
    }
}

/// A lock file read back from the table it is written as is the same lock file: every
/// locked dependency, in order, with its coordinate, specification and commit.
pub proof fn lemma_lock_file_round_trip(ds: Seq<LockedDependencyView>, t: Seq<(String, TomlValue)>)
    requires
        entries_view(t) == lockfile_table(ds),
    ensures
        lockfile_from_table(t) == Ok::<Seq<LockedDependencyView>, ParseErrorView>(ds),
{
    crate::toml_doc::lemma_entries_view_index(t);
    reveal_strlit("version");
    reveal_strlit("dependencies");
    assert(t.len() == 2);
    assert(entries_view(t)[0] == (t[0].0@, toml_view(t[0].1)));
    assert(entries_view(t)[1] == (t[1].0@, toml_view(t[1].1)));
    assert(t[0].0@ == "version"@ && toml_view(t[0].1) == TomlView::Integer(VERSION));
    assert(t[1].0@ == "dependencies"@ && toml_view(t[1].1) == TomlView::Array(locked_tables(ds)));
    crate::toml_doc::lemma_table_lookup_at(t, "version"@, 0);
    assert(t[0].0@[0] != "dependencies"@[0]);
    crate::toml_doc::lemma_table_lookup_at(t, "dependencies"@, 1);
    assert(t[0].1 == TomlValue::Integer(VERSION)) by {
        match t[0].1 {
            TomlValue::Array(_) => {},
            TomlValue::Table(_) => {},
            _ => {},
        }
    }
    match t[1].1 {
        TomlValue::Array(items) => {
            lemma_locked_entries_round_trip(items@, ds);
        },
        TomlValue::Table(_) => {},
        _ => {},
    }
}

impl LockFile {
    /// Reads a lock file from a TOML table.
    pub fn from_toml_table(t: Vec<(String, TomlValue)>) -> (r: Result<LockFile, ParseError>)
        ensures
            result_view(r) == lockfile_from_table(t@),
    {
        let mut t = t;
        match table_find(&t, "version") {
            None => Err(ParseError::OldLockFileVersion(1)),
            Some(i) => {
                let is_current = match &t[i].1 {
                    TomlValue::Integer(n) => *n == VERSION,
                    _ => false,
                };
                if !is_current {
                    let (_, other) = t.remove(i);
                    return Err(ParseError::UnsupportedLockFileVersion(other));
                }
                match table_find(&t, "dependencies") {
                    None => Err(missing_key("dependencies")),
                    Some(j) => match &t[j].1 {
                        TomlValue::Array(items) => match locked_dependencies_exec(items) {
                            Ok(v) => Ok(LockFile { dependencies: v }),
                            Err(e) => Err(e),
                        },
                        _ => Err(invalid_value("dependencies")),
                    },
                }
            },
        }
    }

    /// Reads a lock file from its text.
    pub fn from_str(s: &str) -> (r: Result<LockFile, ParseError>)
        ensures
            result_view(r) == lockfile_from_text(s@),
    {
        match parse_toml(s) {
            Err(m) => Err(ParseError::Toml(m)),
            Ok(t) => Self::from_toml_table(t),
        }
    }

    /// The TOML table the lock file is written as.
    pub fn to_toml_table(&self) -> (r: Vec<(String, TomlValue)>)
        ensures
            entries_view(r@) == lockfile_table(self@),
    {
        let mut items: Vec<TomlValue> = Vec::new();
        let mut i: usize = 0;
        assert(self@.take(0) =~= Seq::<LockedDependencyView>::empty());
        while i < self.dependencies.len()
            invariant
                i <= self.dependencies.len(),
                items_view(items@) == locked_tables(self@.take(i as int)),
            decreases self.dependencies.len() - i,
        {
            let v = locked_dependency_to_value(&self.dependencies[i]);
            proof {
                lemma_items_view_push(items@, v);
            }
            items.push(v);
            i = i + 1;
            assert(self@.take(i as int).drop_last() == self@.take(i - 1));
            assert(self@.take(i as int).last() == self.dependencies@[i - 1]@);
        }
        assert(self@.take(self.dependencies.len() as int) == self@);
        let mut t: Vec<(String, TomlValue)> = Vec::new();
        push_entry(&mut t, "version", TomlValue::Integer(VERSION));
        push_entry(&mut t, "dependencies", TomlValue::Array(items));
        assert(entries_view(t@) =~= lockfile_table(self@));
        t
    }

    /// The text of the lock file, printed by `toml::to_string_pretty`.
    pub fn to_string(&self) -> (r: Result<String, String>)
        ensures
            exists|t: Vec<(String, TomlValue)>|
                entries_view(t@) == lockfile_table(self@) && r == spec_toml_pretty(t),
    {
        let t = self.to_toml_table();
        toml_to_string_pretty(&t)
    }

    /// The same dependencies, in the same order.
    pub fn same(&self, other: &LockFile) -> (r: bool)
        ensures
            r == (self@ == other@),
    {
        if self.dependencies.len() != other.dependencies.len() {
            assert(self@.len() != other@.len());
            return false;
        }
        let mut i: usize = 0;
        while i < self.dependencies.len()
            invariant
                i <= self.dependencies.len(),
                self.dependencies.len() == other.dependencies.len(),
                forall|k: int| 0 <= k < i ==> self@[k] == other@[k],
            decreases self.dependencies.len() - i,
        {
            if !self.dependencies[i].same(&other.dependencies[i]) {
                assert(self@[i as int] != other@[i as int]);
                return false;
            }
            i = i + 1;
        }
        assert(self@ =~= other@);
        true
    }
}


/// Entries ordered by name: no entry's name comes before that of an entry ahead of it.
pub open spec fn ordered_by_name(s: Seq<LockedDependencyView>) -> bool {
    forall|i: int, j: int| 0 <= i < j < s.len() ==> !seq_lt(#[trigger] s[j].name, #[trigger] s[i].name)
}

/// The entries ordered by name; entries with the same name keep their order.
pub fn sort_by_name(deps: Vec<LockedDependency>) -> (r: Vec<LockedDependency>)
    ensures
        ordered_by_name(locked_views(r@)),
        locked_views(r@).to_multiset() == locked_views(deps@).to_multiset(),
{
    let ghost dv = locked_views(deps@);
    let mut deps = deps;
    let total = deps.len();
    let mut r: Vec<LockedDependency> = Vec::new();
    let mut taken: usize = 0;
    assert(dv.take(0) =~= Seq::<LockedDependencyView>::empty());
    assert(locked_views(r@) =~= Seq::<LockedDependencyView>::empty());
    while deps.len() > 0
        invariant
            taken + deps@.len() == dv.len(),
            dv.len() == total,
            forall|k: int| 0 <= k < deps@.len() ==> #[trigger] deps@[k]@ == dv[taken + k],
            ordered_by_name(locked_views(r@)),
            locked_views(r@).to_multiset() == dv.take(taken as int).to_multiset(),
        decreases deps.len(),
    {
        let ghost before = deps@;
        let x = deps.remove(0);
        assert(forall|k: int| 0 <= k < deps@.len() ==> deps@[k] == before[k + 1]);
        let ghost xv = x@;
        assert(xv == dv[taken as int]);
        let ghost rv = locked_views(r@);
        let mut p: usize = 0;
        while p < r.len() && !crate::text::str_lt(x.name.as_str(), r[p].name.as_str())
            invariant
                p <= r.len(),
                rv == locked_views(r@),
                xv == x@,
                forall|k: int| 0 <= k < p ==> !seq_lt(xv.name, #[trigger] rv[k].name),
            decreases r.len() - p,
        {
            p = p + 1;
        }
        let ghost at = p as int;
        r.insert(p, x);
        proof {
            let nv = locked_views(r@);
            assert(nv =~= rv.insert(at, xv));
            assert forall|i: int, j: int| 0 <= i < j < nv.len() implies !seq_lt(
                #[trigger] nv[j].name,
                #[trigger] nv[i].name,
            ) by {
                if j == at {
                    assert(nv[i] == rv[i]);
                } else if i == at {
                    assert(nv[j] == rv[j - 1]);
                    assert(seq_lt(xv.name, rv[at].name));
                    if j - 1 > at {
                        assert(!seq_lt(rv[j - 1].name, rv[at].name));
                    }
                    if seq_lt(rv[j - 1].name, xv.name) {
                        crate::text::lemma_seq_lt_trans(rv[j - 1].name, xv.name, rv[at].name);
                        if j - 1 == at {
                            crate::text::lemma_seq_lt_total(rv[at].name, rv[at].name);
                        }
                    }
                } else if i < at && j > at {
                    assert(nv[i] == rv[i]);
                    assert(nv[j] == rv[j - 1]);
                } else if i > at {
                    assert(nv[i] == rv[i - 1]);
                    assert(nv[j] == rv[j - 1]);
                } else {
                    assert(nv[i] == rv[i]);
                    assert(nv[j] == rv[j]);
                }
            }
            vstd::seq_lib::to_multiset_insert(rv, at, xv);
            assert(dv.take(taken + 1) =~= dv.take(taken as int).push(xv));
            vstd::seq_lib::to_multiset_build(dv.take(taken as int), xv);
        }
        taken = taken + 1;
    }
    assert(dv.take(taken as int) =~= dv);
    r
}

} // verus!
