//! The plan of the proto files to copy for a resolved graph: which file of which
//! dependency's worktree goes to which package path of the output directory.
//!
//! The file system is read beforehand: for each edge of the graph the proto files
//! found under its content roots, and the imports of each of these files.
use vstd::prelude::*;

use super::resolve::is_resolved;
use super::{EdgeView, ModuleView, ResolvedDependency, ResolvedRootModule};
use crate::model::protofetch::descriptor::RulesView;
use crate::model::protofetch::policy::{
    any_matches, policy_views, same_policy, AllowPolicies, DenyPolicies, FilePolicy, PolicyKind,
};
use crate::model::protofetch::{Coordinate, CoordinateView, ModuleName};
use crate::path::{has_root, join_path, join_path_exec, same_path, same_path_exec, with_leading_slash};
use crate::text::chars_of;

verus! {

/// A proto file found under a content root of a worktree.
pub struct ProtoSource {
    pub worktree: String,
    pub content_root: String,
    /// The path below the content root: where the file goes.
    pub package_path: String,
}

/// The content of a proto source.
pub struct SourceView {
    pub worktree: Seq<char>,
    pub content_root: Seq<char>,
    pub package_path: Seq<char>,
}

impl View for ProtoSource {
    type V = SourceView;

    open spec fn view(&self) -> SourceView {
        SourceView {
            worktree: self.worktree@,
            content_root: self.content_root@,
            package_path: self.package_path@,
        }
    }
}

impl Clone for ProtoSource {
    fn clone(&self) -> (r: Self)
        ensures
            r@ == self@,
    {
        ProtoSource {
            worktree: self.worktree.clone(),
            content_root: self.content_root.clone(),
            package_path: self.package_path.clone(),
        }
    }
}

/// Where a proto source is read from.
pub open spec fn full_path(s: SourceView) -> Seq<char> {
    join_path(join_path(s.worktree, s.content_root), s.package_path)
}

/// A planned copy: a file of a dependency's worktree, and the module it belongs to.
pub struct ProtoFileMapping {
    pub worktree: String,
    pub content_root: String,
    pub package_path: String,
    pub module: ModuleName,
    pub coordinate: Coordinate,
}

/// The content of a planned copy.
pub struct MappingView {
    pub source: SourceView,
    pub module: Seq<char>,
    pub coordinate: CoordinateView,
}

impl View for ProtoFileMapping {
    type V = MappingView;

    open spec fn view(&self) -> MappingView {
        MappingView {
            source: SourceView {
                worktree: self.worktree@,
                content_root: self.content_root@,
                package_path: self.package_path@,
            },
            module: self.module@,
            coordinate: self.coordinate@,
        }
    }
}

/// The views of some planned copies.
pub open spec fn mapping_views(v: Seq<ProtoFileMapping>) -> Seq<MappingView> {
    v.map_values(|m: ProtoFileMapping| m@)
}

/// A copy plan never writes one target from two places, nor one file to two targets.
pub open spec fn plan_wf(plan: Seq<MappingView>) -> bool {
    forall|i: int, j: int|
        0 <= i < plan.len() && 0 <= j < plan.len() ==> {
            &&& same_path(full_path(#[trigger] plan[i].source), full_path(#[trigger] plan[j].source))
                ==> same_path(plan[i].source.package_path, plan[j].source.package_path)
            &&& same_path(plan[i].source.package_path, plan[j].source.package_path) ==> same_path(
                plan[i].source.worktree,
                plan[j].source.worktree,
            ) && same_path(plan[i].source.content_root, plan[j].source.content_root)
        }
}

/// The last planned copy that reads `src`.
pub open spec fn last_reading(plan: Seq<MappingView>, src: Seq<char>) -> Option<int>
    decreases plan.len(),
{
    if plan.len() == 0 {
        None
    } else if same_path(full_path(plan.last().source), src) {
        Some(plan.len() - 1)
    } else {
        last_reading(plan.drop_last(), src)
    }
}

/// The last planned copy that writes `target`.
pub open spec fn last_writing(plan: Seq<MappingView>, target: Seq<char>) -> Option<int>
    decreases plan.len(),
{
    if plan.len() == 0 {
        None
    } else if same_path(plan.last().source.package_path, target) {
        Some(plan.len() - 1)
    } else {
        last_writing(plan.drop_last(), target)
    }
}

/// A copy joins the plan unless the file it reads is already copied to another
/// target, or its target is already written from another worktree or content root.
pub open spec fn admitted(plan: Seq<MappingView>, m: MappingView) -> bool {
    &&& match last_reading(plan, full_path(m.source)) {
        Some(i) => same_path(plan[i].source.package_path, m.source.package_path),
        None => true,
    }
    &&& match last_writing(plan, m.source.package_path) {
        Some(i) => same_path(plan[i].source.worktree, m.source.worktree) && same_path(
            plan[i].source.content_root,
            m.source.content_root,
        ),
        None => true,
    }
}

/// The plan after offering it a copy.
pub open spec fn offer(plan: Seq<MappingView>, m: MappingView) -> Seq<MappingView> {
    if admitted(plan, m) {
        plan.push(m)
    } else {
        plan
    }
}

proof fn lemma_last_reading(plan: Seq<MappingView>, src: Seq<char>)
    ensures
        match last_reading(plan, src) {
            Some(i) => 0 <= i < plan.len() && same_path(full_path(plan[i].source), src)
                && forall|k: int| i < k < plan.len() ==> !same_path(full_path(#[trigger] plan[k].source), src),
            None => forall|k: int| 0 <= k < plan.len() ==> !same_path(full_path(#[trigger] plan[k].source), src),
        },
    decreases plan.len(),
{
    if plan.len() > 0 {
        let d = plan.drop_last();
        lemma_last_reading(d, src);
        assert(forall|k: int| 0 <= k < d.len() ==> d[k] == plan[k]);
    }
}

proof fn lemma_last_writing(plan: Seq<MappingView>, t: Seq<char>)
    ensures
        match last_writing(plan, t) {
            Some(i) => 0 <= i < plan.len() && same_path(plan[i].source.package_path, t)
                && forall|k: int| i < k < plan.len() ==> !same_path(#[trigger] plan[k].source.package_path, t),
            None => forall|k: int| 0 <= k < plan.len() ==> !same_path(#[trigger] plan[k].source.package_path, t),
        },
    decreases plan.len(),
{
    if plan.len() > 0 {
        let d = plan.drop_last();
        lemma_last_writing(d, t);
        assert(forall|k: int| 0 <= k < d.len() ==> d[k] == plan[k]);
    }
}

/// Offering copies keeps a plan well formed.
pub proof fn lemma_offer_keeps_wf(plan: Seq<MappingView>, m: MappingView)
    requires
        plan_wf(plan),
    ensures
        plan_wf(offer(plan, m)),
{
    if admitted(plan, m) {
        let p = plan.push(m);
        let n = plan.len() as int;
        lemma_last_reading(plan, full_path(m.source));
        lemma_last_writing(plan, m.source.package_path);
        assert forall|i: int, j: int| 0 <= i < p.len() && 0 <= j < p.len() implies {
            &&& same_path(full_path(#[trigger] p[i].source), full_path(#[trigger] p[j].source))
                ==> same_path(p[i].source.package_path, p[j].source.package_path)
            &&& same_path(p[i].source.package_path, p[j].source.package_path) ==> same_path(
                p[i].source.worktree,
                p[j].source.worktree,
            ) && same_path(p[i].source.content_root, p[j].source.content_root)
        } by {
            if i < n && j < n {
                assert(p[i] == plan[i] && p[j] == plan[j]);
            } else if i == n && j == n {
            } else {
                let k = if i < n { i } else { j };
                assert(p[k] == plan[k]);
                match last_reading(plan, full_path(m.source)) {
                    Some(s) => {
                        if same_path(full_path(plan[k].source), full_path(m.source)) {
                            assert(same_path(full_path(plan[k].source), full_path(plan[s].source)));
                        }
                    },
                    None => {},
                }
                match last_writing(plan, m.source.package_path) {
                    Some(t) => {
                        if same_path(plan[k].source.package_path, m.source.package_path) {
                            assert(same_path(plan[k].source.package_path, plan[t].source.package_path));
                        }
                    },
                    None => {},
                }
            }
        }
    }
}

/// The proto files of a module under the content roots of one edge, as found in its
/// worktree (the whole worktree when the edge names no content root).
pub struct SourceListing {
    pub name: ModuleName,
    pub content_roots: Vec<String>,
    pub sources: Vec<ProtoSource>,
}

/// The imports of a proto file, by its path.
pub struct FileImports {
    pub path: String,
    pub imports: Vec<String>,
}

/// An import that was needed by a pruned module and found nowhere.
pub struct UnresolvedImport {
    pub module: ModuleName,
    pub coordinate: Coordinate,
    pub import: String,
}

/// The listing serves an edge: same module, same content roots.
pub open spec fn listing_for(l: SourceListing, e: EdgeView) -> bool {
    &&& l.name@ == e.name
    &&& l.content_roots@.len() == e.rules.content_roots.len()
    &&& forall|i: int|
        0 <= i < l.content_roots@.len() ==> same_path(
            #[trigger] l.content_roots@[i]@,
            e.rules.content_roots[i],
        )
}

/// A file is denied by some deny policies: there are policies, and one selects the
/// file read as absolute.
pub open spec fn denied_by(policies: Seq<(PolicyKind, Seq<char>)>, file: Seq<char>) -> bool {
    policies.len() > 0 && any_matches(policies, with_leading_slash(file))
}

/// An edge of the graph: one of the root's, or one of a module's.
pub open spec fn graph_edge(root: super::RootView, e: EdgeView) -> bool {
    ||| exists|k: int| 0 <= k < root.dependencies.len() && #[trigger] root.dependencies[k] == e
    ||| exists|i: int, j: int|
        0 <= i < root.modules.len() && 0 <= j < root.modules[i].dependencies.len()
            && #[trigger] root.modules[i].dependencies[j] == e
}

/// A source is one of a listing's.
pub open spec fn from_listing(l: SourceListing, s: SourceView) -> bool {
    exists|j: int| 0 <= j < l.sources@.len() && #[trigger] l.sources@[j]@ == s
}

/// A source of an edge of the graph: listed for the edge, and not denied by the
/// edge's deny policies.
pub open spec fn edge_source(
    root: super::RootView,
    listings: Seq<SourceListing>,
    e: EdgeView,
    s: SourceView,
) -> bool {
    &&& graph_edge(root, e)
    &&& exists|k: int|
        0 <= k < listings.len() && listing_for(#[trigger] listings[k], e) && from_listing(listings[k], s)
    &&& !denied_by(e.rules.deny_policies, s.package_path)
}

/// Where a planned copy comes from: a source of an edge of the graph leading to the
/// copy's module, a module of the graph with the copy's coordinate.
pub open spec fn copy_traced(root: super::RootView, listings: Seq<SourceListing>, m: MappingView) -> bool {
    &&& exists|e: EdgeView| e.name == m.module && #[trigger] edge_source(root, listings, e, m.source)
    &&& exists|i: int|
        0 <= i < root.modules.len() && #[trigger] root.modules[i].name == m.module
            && root.modules[i].coordinate == m.coordinate
}

/// Every planned copy is traced to its source.
pub open spec fn plan_traced(root: super::RootView, listings: Seq<SourceListing>, plan: Seq<MappingView>) -> bool {
    forall|k: int| 0 <= k < plan.len() ==> copy_traced(root, listings, #[trigger] plan[k])
}

/// The copy is of a file of an edge leading to its module that the edge's allow
/// policies let through.
pub open spec fn allowed_copy(root: super::RootView, listings: Seq<SourceListing>, m: MappingView) -> bool {
    exists|e: EdgeView|
        e.name == m.module && #[trigger] edge_source(root, listings, e, m.source) && allowed_by(
            e.rules.allow_policies,
            m.source.package_path,
        )
}

/// Every planned copy is of a file that the allow policies of an edge leading to its
/// module let through.
pub open spec fn plan_allowed(root: super::RootView, listings: Seq<SourceListing>, plan: Seq<MappingView>) -> bool {
    forall|k: int| 0 <= k < plan.len() ==> allowed_copy(root, listings, #[trigger] plan[k])
}

/// A file is allowed by some allow policies: there are none, or one selects the file
/// read as absolute.
pub open spec fn allowed_by(policies: Seq<(PolicyKind, Seq<char>)>, file: Seq<char>) -> bool {
    policies.len() == 0 || any_matches(policies, with_leading_slash(file))
}

/// The plan reads a source or writes its target: the copy of the source is planned,
/// or set aside for a planned copy it would conflict with.
pub open spec fn covered(plan: Seq<MappingView>, s: SourceView) -> bool {
    exists|i: int|
        0 <= i < plan.len() && (same_path(full_path(#[trigger] plan[i].source), full_path(s)) || same_path(
            plan[i].source.package_path,
            s.package_path,
        ))
}

/// The listing at `k` is the first one that serves the edge.
pub open spec fn first_listing_for(listings: Seq<SourceListing>, e: EdgeView, k: int) -> bool {
    &&& 0 <= k < listings.len()
    &&& listing_for(listings[k], e)
    &&& forall|j: int| 0 <= j < k ==> !listing_for(#[trigger] listings[j], e)
}

/// Every file of an edge's listing that its policies let through is covered by the
/// plan.
pub open spec fn edge_files_covered(listings: Seq<SourceListing>, e: EdgeView, plan: Seq<MappingView>) -> bool {
    forall|k: int, j: int|
        first_listing_for(listings, e, k) && 0 <= j < listings[k].sources@.len() && !denied_by(
            e.rules.deny_policies,
            listings[k].sources@[j]@.package_path,
        ) && allowed_by(e.rules.allow_policies, listings[k].sources@[j]@.package_path) ==> covered(
            plan,
            #[trigger] listings[k].sources@[j]@,
        )
}

/// Some planned copy writes to a path.
pub open spec fn path_planned(plan: Seq<MappingView>, q: Seq<char>) -> bool {
    exists|i: int| 0 <= i < plan.len() && same_path(#[trigger] plan[i].source.package_path, q)
}

/// Some path of a set denotes `q`.
pub open spec fn path_in(s: Seq<Seq<char>>, q: Seq<char>) -> bool {
    exists|i: int| 0 <= i < s.len() && same_path(#[trigger] s[i], q)
}

/// A path is planned, or still to find.
pub open spec fn found_or_waiting(plan: Seq<MappingView>, waiting: Seq<Seq<char>>, q: Seq<char>) -> bool {
    path_planned(plan, q) || path_in(waiting, q)
}

/// The entry `k` is the first one for file `f`.
pub open spec fn imports_entry(imports: Seq<FileImports>, f: Seq<char>, k: int) -> bool {
    &&& 0 <= k < imports.len()
    &&& same_path(imports[k].path@, f)
    &&& forall|j: int| 0 <= j < k ==> !same_path(#[trigger] imports[j].path@, f)
}

/// Every import of each file copied from position `from` of the plan on is planned, or
/// still to find.
pub open spec fn imports_accounted(
    imports: Seq<FileImports>,
    plan: Seq<MappingView>,
    from: int,
    waiting: Seq<Seq<char>>,
) -> bool {
    imports_accounted_upto(imports, plan, from, plan.len() as int, waiting)
}

/// Every import of each file copied at a position from `from` up to `to` is planned, or
/// still to find.
pub open spec fn imports_accounted_upto(
    imports: Seq<FileImports>,
    plan: Seq<MappingView>,
    from: int,
    to: int,
    waiting: Seq<Seq<char>>,
) -> bool {
    forall|i: int, k: int, j: int|
        #![trigger plan[i], imports[k].imports@[j]]
        from <= i < to && imports_entry(imports, full_path(plan[i].source), k) && 0 <= j
            < imports[k].imports@.len() ==> found_or_waiting(plan, waiting, imports[k].imports@[j]@)
}

proof fn lemma_path_in_same(s: Seq<Seq<char>>, a: Seq<char>, q: Seq<char>)
    requires
        path_in(s, a),
        same_path(a, q),
    ensures
        path_in(s, q),
{
    let i = choose|i: int| 0 <= i < s.len() && same_path(#[trigger] s[i], a);
    assert(same_path(s[i], q));
}

/// A path put in a set of waiting paths (added, or there already) is waiting, and so is
/// every path waiting before.
proof fn lemma_waiting_grows(w0: Seq<Seq<char>>, w1: Seq<Seq<char>>, x: Seq<char>)
    requires
        (w1 == w0 && path_in(w0, x)) || w1 == w0.push(x),
    ensures
        path_in(w1, x),
        forall|q: Seq<char>| path_in(w0, q) ==> #[trigger] path_in(w1, q),
{
    if w1 == w0.push(x) {
        assert(same_path(w1[w0.len() as int], x));
        assert forall|q: Seq<char>| path_in(w0, q) implies #[trigger] path_in(w1, q) by {
            let i = choose|i: int| 0 <= i < w0.len() && same_path(#[trigger] w0[i], q);
            assert(w1[i] == w0[i]);
        }
    }
}

proof fn lemma_imports_waiting_grows(
    imports: Seq<FileImports>,
    plan: Seq<MappingView>,
    from: int,
    w0: Seq<Seq<char>>,
    w1: Seq<Seq<char>>,
)
    requires
        imports_accounted(imports, plan, from, w0),
        forall|q: Seq<char>| path_in(w0, q) ==> #[trigger] path_in(w1, q),
    ensures
        imports_accounted(imports, plan, from, w1),
{
}

/// Once the plan is extended and what waited is planned or still waits, what was
/// planned or waiting still is.
proof fn lemma_waiting_moves(p1: Seq<MappingView>, w1: Seq<Seq<char>>, p2: Seq<MappingView>, w2: Seq<Seq<char>>)
    requires
        plan_extends(p1, p2),
        forall|q: Seq<char>| path_in(w1, q) ==> found_or_waiting(p2, w2, q),
    ensures
        forall|q: Seq<char>| #[trigger] found_or_waiting(p1, w1, q) ==> found_or_waiting(p2, w2, q),
{
    assert forall|q: Seq<char>| #[trigger] found_or_waiting(p1, w1, q) implies found_or_waiting(p2, w2, q) by {
        if path_planned(p1, q) {
            lemma_planned_kept(p1, p2, q);
        }
    }
}

proof fn lemma_imports_moves(
    imports: Seq<FileImports>,
    p1: Seq<MappingView>,
    from: int,
    w1: Seq<Seq<char>>,
    p2: Seq<MappingView>,
    w2: Seq<Seq<char>>,
)
    requires
        0 <= from,
        imports_accounted(imports, p1, from, w1),
        plan_extends(p1, p2),
        forall|q: Seq<char>| #[trigger] found_or_waiting(p1, w1, q) ==> found_or_waiting(p2, w2, q),
    ensures
        imports_accounted_upto(imports, p2, from, p1.len() as int, w2),
{
    assert forall|i: int, k: int, j: int|
        #![trigger p2[i], imports[k].imports@[j]]
        from <= i < p1.len() && imports_entry(imports, full_path(p2[i].source), k) && 0 <= j
            < imports[k].imports@.len() implies found_or_waiting(p2, w2, imports[k].imports@[j]@) by {
        assert(p2[i] == p1[i]);
        assert(found_or_waiting(p1, w1, imports[k].imports@[j]@));
    }
}

proof fn lemma_imports_new_entry(imports: Seq<FileImports>, p2: Seq<MappingView>, from: int, w2: Seq<Seq<char>>)
    requires
        p2.len() > 0,
        from <= p2.len() - 1,
        imports_accounted_upto(imports, p2, from, p2.len() - 1, w2),
        forall|k: int, x: int|
            imports_entry(imports, full_path(p2[p2.len() - 1].source), k) && 0 <= x < imports[k].imports@.len()
                ==> found_or_waiting(p2, w2, #[trigger] imports[k].imports@[x]@),
    ensures
        imports_accounted(imports, p2, from, w2),
{
}

/// The file `j` of the listing at `k` is one that an edge's policies let through: the
/// first listing serving the edge, not denied by the edge or any of the policy sets
/// `outer`, and allowed by the edge.
pub open spec fn lets_through(
    listings: Seq<SourceListing>,
    e: EdgeView,
    outer: Seq<Seq<(PolicyKind, Seq<char>)>>,
    k: int,
    j: int,
) -> bool {
    &&& first_listing_for(listings, e, k)
    &&& 0 <= j < listings[k].sources@.len()
    &&& !denied_by(e.rules.deny_policies, listings[k].sources@[j]@.package_path)
    &&& !denied_by_any(outer, listings[k].sources@[j]@.package_path)
    &&& allowed_by(e.rules.allow_policies, listings[k].sources@[j]@.package_path)
}

/// A path that file `f` imports, by the first entry for `f` among the imports read.
pub open spec fn imports_path(imports: Seq<FileImports>, f: Seq<char>, q: Seq<char>) -> bool {
    exists|k: int, j: int|
        #![trigger imports[k].imports@[j]]
        imports_entry(imports, f, k) && 0 <= j < imports[k].imports@.len() && same_path(imports[k].imports@[j]@, q)
}

/// The path of a file of edge `e` that the edge's allow policies let through.
pub open spec fn allowed_path(root: super::RootView, listings: Seq<SourceListing>, e: EdgeView, q: Seq<char>) -> bool {
    exists|s: SourceView|
        #[trigger] edge_source(root, listings, e, s) && allowed_by(e.rules.allow_policies, s.package_path)
            && same_path(s.package_path, q)
}

/// A path reached from the allowed files of edge `e`: the path of one of them, or one
/// that a file of `chain` imports.
pub open spec fn reached_path(
    root: super::RootView,
    listings: Seq<SourceListing>,
    imports: Seq<FileImports>,
    e: EdgeView,
    chain: Seq<SourceView>,
    q: Seq<char>,
) -> bool {
    ||| allowed_path(root, listings, e, q)
    ||| exists|u: int| 0 <= u < chain.len() && #[trigger] imports_path(imports, full_path(chain[u]), q)
}

/// Each file of `chain` is a file of edge `e` whose path is reached from the edge's
/// allowed files through the files before it.
pub open spec fn import_chain(
    root: super::RootView,
    listings: Seq<SourceListing>,
    imports: Seq<FileImports>,
    e: EdgeView,
    chain: Seq<SourceView>,
) -> bool {
    forall|t: int|
        0 <= t < chain.len() ==> edge_source(root, listings, e, #[trigger] chain[t]) && reached_path(
            root,
            listings,
            imports,
            e,
            chain.take(t),
            chain[t].package_path,
        )
}

/// A copy of module `name` of a file of `chain`.
pub open spec fn copied_from(chain: Seq<SourceView>, name: Seq<char>, m: MappingView) -> bool {
    m.module == name && exists|t: int| 0 <= t < chain.len() && #[trigger] chain[t] == m.source
}

/// The copy is of a file of a pruned edge of the graph reached from the files the
/// edge's allow policies let through (see `import_chain`).
pub open spec fn pruned_copy(
    root: super::RootView,
    listings: Seq<SourceListing>,
    imports: Seq<FileImports>,
    m: MappingView,
) -> bool {
    exists|e: EdgeView, chain: Seq<SourceView>|
        #![trigger import_chain(root, listings, imports, e, chain)]
        graph_edge(root, e) && e.rules.prune && import_chain(root, listings, imports, e, chain) && copied_from(
            chain,
            e.name,
            m,
        )
}

/// Every copy from position `from` of the plan on is of a file that the allow policies
/// of an edge leading to its module let through, or of a file of a pruned edge reached
/// from the files its allow policies let through.
pub open spec fn copies_justified(
    root: super::RootView,
    listings: Seq<SourceListing>,
    imports: Seq<FileImports>,
    plan: Seq<MappingView>,
    from: int,
) -> bool {
    forall|k: int|
        from <= k < plan.len() ==> allowed_copy(root, listings, #[trigger] plan[k]) || pruned_copy(
            root,
            listings,
            imports,
            plan[k],
        )
}

/// A plan whose copies are justified stays so when it is extended by justified copies.
proof fn lemma_justified_extends(
    root: super::RootView,
    listings: Seq<SourceListing>,
    imports: Seq<FileImports>,
    a: Seq<MappingView>,
    b: Seq<MappingView>,
)
    requires
        copies_justified(root, listings, imports, a, 0),
        plan_extends(a, b),
        copies_justified(root, listings, imports, b, a.len() as int),
    ensures
        copies_justified(root, listings, imports, b, 0),
{
    assert forall|k: int| 0 <= k < b.len() implies allowed_copy(root, listings, #[trigger] b[k]) || pruned_copy(
        root,
        listings,
        imports,
        b[k],
    ) by {
        if k < a.len() {
            assert(b[k] == a[k]);
        }
    }
}

proof fn lemma_reached_grows(
    root: super::RootView,
    listings: Seq<SourceListing>,
    imports: Seq<FileImports>,
    e: EdgeView,
    chain: Seq<SourceView>,
    s: SourceView,
    q: Seq<char>,
)
    requires
        reached_path(root, listings, imports, e, chain, q),
    ensures
        reached_path(root, listings, imports, e, chain.push(s), q),
{
    if !allowed_path(root, listings, e, q) {
        let u = choose|u: int| 0 <= u < chain.len() && #[trigger] imports_path(imports, full_path(chain[u]), q);
        assert(chain.push(s)[u] == chain[u]);
    }
}

proof fn lemma_chain_push(
    root: super::RootView,
    listings: Seq<SourceListing>,
    imports: Seq<FileImports>,
    e: EdgeView,
    chain: Seq<SourceView>,
    s: SourceView,
)
    requires
        import_chain(root, listings, imports, e, chain),
        edge_source(root, listings, e, s),
        reached_path(root, listings, imports, e, chain, s.package_path),
    ensures
        import_chain(root, listings, imports, e, chain.push(s)),
{
    let c2 = chain.push(s);
    assert forall|t: int| 0 <= t < c2.len() implies edge_source(root, listings, e, #[trigger] c2[t]) && reached_path(
        root,
        listings,
        imports,
        e,
        c2.take(t),
        c2[t].package_path,
    ) by {
        if t < chain.len() {
            assert(c2[t] == chain[t]);
            assert(c2.take(t) =~= chain.take(t));
        } else {
            assert(c2.take(t) =~= chain);
        }
    }
}

/// A path the same as one reached is reached.
proof fn lemma_reached_same(
    root: super::RootView,
    listings: Seq<SourceListing>,
    imports: Seq<FileImports>,
    e: EdgeView,
    chain: Seq<SourceView>,
    q: Seq<char>,
    q2: Seq<char>,
)
    requires
        reached_path(root, listings, imports, e, chain, q),
        same_path(q, q2),
    ensures
        reached_path(root, listings, imports, e, chain, q2),
{
    if allowed_path(root, listings, e, q) {
        let s = choose|s: SourceView|
            #[trigger] edge_source(root, listings, e, s) && allowed_by(e.rules.allow_policies, s.package_path)
                && same_path(s.package_path, q);
        assert(edge_source(root, listings, e, s));
    } else {
        let u = choose|u: int| 0 <= u < chain.len() && #[trigger] imports_path(imports, full_path(chain[u]), q);
        let (k, j) = choose|k: int, j: int|
            #![trigger imports[k].imports@[j]]
            imports_entry(imports, full_path(chain[u]), k) && 0 <= j < imports[k].imports@.len() && same_path(
                imports[k].imports@[j]@,
                q,
            );
        assert(imports_path(imports, full_path(chain[u]), q2));
    }
}

/// Every file that a pruned dependency's policies let through (and that none of the
/// policy sets `outer` denies) is planned, or still to find.
pub open spec fn pruned_roots_accounted(
    listings: Seq<SourceListing>,
    e: EdgeView,
    plan: Seq<MappingView>,
    outer: Seq<Seq<(PolicyKind, Seq<char>)>>,
    waiting: Seq<Seq<char>>,
) -> bool {
    forall|k: int, j: int|
        #[trigger] lets_through(listings, e, outer, k, j) ==> found_or_waiting(
            plan,
            waiting,
            listings[k].sources@[j]@.package_path,
        )
}

/// What was still to find in each pruning context is still to find, or planned.
spec fn waiting_kept(before: Seq<PruneContext>, after: Seq<PruneContext>, plan: Seq<MappingView>) -> bool {
    &&& before.len() <= after.len()
    &&& forall|j: int, q: Seq<char>|
        0 <= j < before.len() && #[trigger] path_in(crate::text::views(before[j].remaining@), q) ==> found_or_waiting(
            plan,
            crate::text::views(after[j].remaining@),
            q,
        )
}

proof fn lemma_waiting_refl(a: Seq<PruneContext>, plan: Seq<MappingView>)
    ensures
        waiting_kept(a, a, plan),
{
}

proof fn lemma_waiting_trans(
    a: Seq<PruneContext>,
    b: Seq<PruneContext>,
    c: Seq<PruneContext>,
    p1: Seq<MappingView>,
    p2: Seq<MappingView>,
)
    requires
        waiting_kept(a, b, p1),
        waiting_kept(b, c, p2),
        plan_extends(p1, p2),
    ensures
        waiting_kept(a, c, p2),
{
    assert forall|j: int, q: Seq<char>|
        0 <= j < a.len() && #[trigger] path_in(crate::text::views(a[j].remaining@), q) implies found_or_waiting(
        p2,
        crate::text::views(c[j].remaining@),
        q,
    ) by {
        assert(found_or_waiting(p1, crate::text::views(b[j].remaining@), q));
        if path_planned(p1, q) {
            lemma_planned_kept(p1, p2, q);
        } else {
            assert(path_in(crate::text::views(b[j].remaining@), q));
        }
    }
}

/// Keeping the contexts of `a` in `b`, changing at most one by letting it wait for more.
proof fn lemma_waiting_one_grows(a: Seq<PruneContext>, b: Seq<PruneContext>, t: int, plan: Seq<MappingView>)
    requires
        a.len() <= b.len(),
        forall|j: int| 0 <= j < a.len() && j != t ==> #[trigger] b[j] == a[j],
        0 <= t < a.len() ==> forall|q: Seq<char>|
            path_in(crate::text::views(a[t].remaining@), q) ==> #[trigger] path_in(crate::text::views(b[t].remaining@), q),
    ensures
        waiting_kept(a, b, plan),
{
    assert forall|j: int, q: Seq<char>|
        0 <= j < a.len() && #[trigger] path_in(crate::text::views(a[j].remaining@), q) implies found_or_waiting(
        plan,
        crate::text::views(b[j].remaining@),
        q,
    ) by {
        if j != t {
            assert(b[j] == a[j]);
        }
    }
}

proof fn lemma_waiting_prefix(a: Seq<PruneContext>, b: Seq<PruneContext>, c: Seq<PruneContext>, plan: Seq<MappingView>)
    requires
        waiting_kept(a, b, plan),
        a.len() <= c.len(),
        c.len() <= b.len(),
        forall|j: int| 0 <= j < c.len() ==> #[trigger] c[j] == b[j],
    ensures
        waiting_kept(a, c, plan),
{
    assert forall|j: int, q: Seq<char>|
        0 <= j < a.len() && #[trigger] path_in(crate::text::views(a[j].remaining@), q) implies found_or_waiting(
        plan,
        crate::text::views(c[j].remaining@),
        q,
    ) by {
        assert(c[j] == b[j]);
    }
}

proof fn lemma_path_in_without(s: Seq<Seq<char>>, p: Seq<char>, q: Seq<char>)
    requires
        path_in(s, q),
    ensures
        path_in(paths_without(s, p), q) || same_path(q, p),
{
    let i = choose|i: int| 0 <= i < s.len() && same_path(#[trigger] s[i], q);
    if !same_path(s[i], p) {
        let f = |x: Seq<char>| !same_path(x, p);
        s.lemma_filter_contains(f, i);
        let w = paths_without(s, p);
        assert(w.contains(s[i]));
        let k = choose|k: int| 0 <= k < w.len() && w[k] == s[i];
        assert(same_path(w[k], q));
    }
}

proof fn lemma_planned_kept(before: Seq<MappingView>, after: Seq<MappingView>, q: Seq<char>)
    requires
        path_planned(before, q),
        plan_extends(before, after),
    ensures
        path_planned(after, q),
{
    let i = choose|i: int| 0 <= i < before.len() && same_path(#[trigger] before[i].source.package_path, q);
    assert(after[i] == before[i]);
}

/// Some unresolved import names the path.
pub open spec fn import_reported(unresolved: Seq<UnresolvedImport>, q: Seq<char>) -> bool {
    exists|x: int| 0 <= x < unresolved.len() && same_path(#[trigger] unresolved[x].import@, q)
}

/// A module of the graph has this name and coordinate.
pub open spec fn module_of_graph(mods: Seq<ModuleView>, name: Seq<char>, coordinate: CoordinateView) -> bool {
    exists|i: int| 0 <= i < mods.len() && #[trigger] mods[i].name == name && mods[i].coordinate == coordinate
}

/// Some edge of the graph is pruned.
pub open spec fn has_pruned_edge(root: super::RootView) -> bool {
    exists|e: EdgeView| #[trigger] graph_edge(root, e) && e.rules.prune
}

/// An edge equal to `e` is among some.
pub open spec fn edge_in(s: Seq<ResolvedDependency>, e: EdgeView) -> bool {
    exists|k: int| 0 <= k < s.len() && same_edge(#[trigger] s[k]@, e)
}

/// The policy sets of some deny policies.
pub open spec fn deny_views(d: Seq<DenyPolicies>) -> Seq<Seq<(PolicyKind, Seq<char>)>> {
    d.map_values(|x: DenyPolicies| x.policies())
}

/// One of these policy sets denies a file.
pub open spec fn denied_by_any(outer: Seq<Seq<(PolicyKind, Seq<char>)>>, file: Seq<char>) -> bool {
    exists|q: int| 0 <= q < outer.len() && denied_by(#[trigger] outer[q], file)
}

/// Every file of an edge's listing that its policies let through, and that none of
/// the policy sets `outer` denies, is covered by the plan.
pub open spec fn edge_files_covered_under(
    listings: Seq<SourceListing>,
    e: EdgeView,
    plan: Seq<MappingView>,
    outer: Seq<Seq<(PolicyKind, Seq<char>)>>,
) -> bool {
    forall|k: int, j: int|
        first_listing_for(listings, e, k) && 0 <= j < listings[k].sources@.len() && !denied_by(
            e.rules.deny_policies,
            listings[k].sources@[j]@.package_path,
        ) && !denied_by_any(outer, listings[k].sources@[j]@.package_path) && allowed_by(
            e.rules.allow_policies,
            listings[k].sources@[j]@.package_path,
        ) ==> covered(plan, #[trigger] listings[k].sources@[j]@)
}

/// An edge equal to `e` is among some edge contents.
pub open spec fn edge_among(s: Seq<EdgeView>, e: EdgeView) -> bool {
    exists|k: int| 0 <= k < s.len() && same_edge(#[trigger] s[k], e)
}

/// An edge that is neither transitive nor pruned.
pub open spec fn plain_edge(e: EdgeView) -> bool {
    !e.rules.transitive && !e.rules.prune
}

/// Down to `depth` levels below edges `deps`, taken with the edges in `active` already
/// being planned and the deny policies `outer` in force: each plain edge that is not
/// already being planned (not part of a cycle) has every file its policies and those
/// in force let through covered, and so, one level down, have the edges of the module
/// it leads to, with the edge added to those being planned and its deny policies to
/// those in force.
pub open spec fn tree_covered(
    root: super::RootView,
    listings: Seq<SourceListing>,
    plan: Seq<MappingView>,
    active: Seq<EdgeView>,
    outer: Seq<Seq<(PolicyKind, Seq<char>)>>,
    deps: Seq<EdgeView>,
    depth: nat,
) -> bool
    decreases depth,
{
    forall|k: int|
        0 <= k < deps.len() && plain_edge(deps[k]) && !edge_among(active, deps[k]) ==> {
            &&& edge_files_covered_under(listings, #[trigger] deps[k], plan, outer)
            &&& depth > 0 ==> forall|i: int|
                first_module_named(root.modules, deps[k].name, i) ==> tree_covered(
                    root,
                    listings,
                    plan,
                    active.push(deps[k]),
                    outer.push(deps[k].rules.deny_policies),
                    root.modules[i].dependencies,
                    (depth - 1) as nat,
                )
        }
}

/// Every plain edge reached from the root's edges through plain edges, skipping
/// cycles, has its files covered under the deny policies along the way, at every
/// depth.
pub open spec fn graph_covered(root: super::RootView, listings: Seq<SourceListing>, plan: Seq<MappingView>) -> bool {
    forall|depth: nat| #[trigger] tree_covered(root, listings, plan, seq![], seq![], root.dependencies, depth)
}

proof fn lemma_tree_kept(
    root: super::RootView,
    listings: Seq<SourceListing>,
    p1: Seq<MappingView>,
    p2: Seq<MappingView>,
    active: Seq<EdgeView>,
    outer: Seq<Seq<(PolicyKind, Seq<char>)>>,
    deps: Seq<EdgeView>,
    depth: nat,
)
    requires
        tree_covered(root, listings, p1, active, outer, deps, depth),
        plan_extends(p1, p2),
    ensures
        tree_covered(root, listings, p2, active, outer, deps, depth),
    decreases depth,
{
    assert forall|k: int| 0 <= k < deps.len() && plain_edge(deps[k]) && !edge_among(active, deps[k]) implies {
        &&& edge_files_covered_under(listings, #[trigger] deps[k], p2, outer)
        &&& depth > 0 ==> forall|i: int|
            first_module_named(root.modules, deps[k].name, i) ==> tree_covered(
                root,
                listings,
                p2,
                active.push(deps[k]),
                outer.push(deps[k].rules.deny_policies),
                root.modules[i].dependencies,
                (depth - 1) as nat,
            )
    } by {
        lemma_edge_files_under_kept(listings, deps[k], p1, p2, outer);
        if depth > 0 {
            assert forall|i: int| first_module_named(root.modules, deps[k].name, i) implies tree_covered(
                root,
                listings,
                p2,
                active.push(deps[k]),
                outer.push(deps[k].rules.deny_policies),
                root.modules[i].dependencies,
                (depth - 1) as nat,
            ) by {
                lemma_tree_kept(
                    root,
                    listings,
                    p1,
                    p2,
                    active.push(deps[k]),
                    outer.push(deps[k].rules.deny_policies),
                    root.modules[i].dependencies,
                    (depth - 1) as nat,
                );
            }
        }
    }
}

/// An edge is among some edges exactly when it is among their contents.
proof fn lemma_edge_in_views(s: Seq<ResolvedDependency>, e: EdgeView)
    ensures
        edge_in(s, e) == edge_among(super::edge_views(s), e),
{
    let v = super::edge_views(s);
    if edge_in(s, e) {
        let k = choose|k: int| 0 <= k < s.len() && same_edge(#[trigger] s[k]@, e);
        assert(v[k] == s[k]@);
    }
    if edge_among(v, e) {
        let k = choose|k: int| 0 <= k < v.len() && same_edge(#[trigger] v[k], e);
        assert(v[k] == s[k]@);
    }
}

proof fn lemma_edge_files_under_kept(
    listings: Seq<SourceListing>,
    e: EdgeView,
    before: Seq<MappingView>,
    after: Seq<MappingView>,
    outer: Seq<Seq<(PolicyKind, Seq<char>)>>,
)
    requires
        edge_files_covered_under(listings, e, before, outer),
        plan_extends(before, after),
    ensures
        edge_files_covered_under(listings, e, after, outer),
{
    assert forall|k: int, j: int|
        first_listing_for(listings, e, k) && 0 <= j < listings[k].sources@.len() && !denied_by(
            e.rules.deny_policies,
            listings[k].sources@[j]@.package_path,
        ) && !denied_by_any(outer, listings[k].sources@[j]@.package_path) && allowed_by(
            e.rules.allow_policies,
            listings[k].sources@[j]@.package_path,
        ) implies covered(after, #[trigger] listings[k].sources@[j]@) by {
        lemma_covered_kept(before, after, listings[k].sources@[j]@);
    }
}

/// With no other policies in force, the files of an edge are covered.
proof fn lemma_edge_files_under_none(listings: Seq<SourceListing>, e: EdgeView, plan: Seq<MappingView>)
    requires
        edge_files_covered_under(listings, e, plan, seq![]),
    ensures
        edge_files_covered(listings, e, plan),
{
    assert forall|k: int, j: int|
        first_listing_for(listings, e, k) && 0 <= j < listings[k].sources@.len() && !denied_by(
            e.rules.deny_policies,
            listings[k].sources@[j]@.package_path,
        ) && allowed_by(e.rules.allow_policies, listings[k].sources@[j]@.package_path) implies covered(
        plan,
        #[trigger] listings[k].sources@[j]@,
    ) by {
        assert(!denied_by_any(seq![], listings[k].sources@[j]@.package_path));
    }
}

/// A plan extends another: it begins with it.
pub open spec fn plan_extends(before: Seq<MappingView>, after: Seq<MappingView>) -> bool {
    before.len() <= after.len() && forall|i: int| 0 <= i < before.len() ==> #[trigger] after[i] == before[i]
}

proof fn lemma_extends_trans(a: Seq<MappingView>, b: Seq<MappingView>, c: Seq<MappingView>)
    requires
        plan_extends(a, b),
        plan_extends(b, c),
    ensures
        plan_extends(a, c),
{
    assert forall|i: int| 0 <= i < a.len() implies #[trigger] c[i] == a[i] by {
        assert(c[i] == b[i]);
    }
}

proof fn lemma_covered_kept(before: Seq<MappingView>, after: Seq<MappingView>, s: SourceView)
    requires
        covered(before, s),
        plan_extends(before, after),
    ensures
        covered(after, s),
{
    let i = choose|i: int|
        0 <= i < before.len() && (same_path(full_path(#[trigger] before[i].source), full_path(s)) || same_path(
            before[i].source.package_path,
            s.package_path,
        ));
    assert(after[i] == before[i]);
}

/// A candidate file: listed in the listing found, and not denied by these policies.
pub open spec fn candidate(
    listing: Option<SourceListing>,
    deny: Seq<(PolicyKind, Seq<char>)>,
    s: SourceView,
) -> bool {
    listing matches Some(l) && from_listing(l, s) && !denied_by(deny, s.package_path)
}

/// A policy is a member of a set of policies.
pub open spec fn policy_member(p: (PolicyKind, Seq<char>), set: Seq<(PolicyKind, Seq<char>)>) -> bool {
    exists|j: int| 0 <= j < set.len() && same_policy(p, #[trigger] set[j])
}

/// Every member of `a` is one of `b`.
pub open spec fn policies_within(a: Seq<(PolicyKind, Seq<char>)>, b: Seq<(PolicyKind, Seq<char>)>) -> bool {
    forall|i: int| 0 <= i < a.len() ==> policy_member(#[trigger] a[i], b)
}

/// Two sets of policies have the same members.
pub open spec fn same_policy_set(a: Seq<(PolicyKind, Seq<char>)>, b: Seq<(PolicyKind, Seq<char>)>) -> bool {
    policies_within(a, b) && policies_within(b, a)
}

/// Two sets of rules are equal.
pub open spec fn same_rules(a: RulesView, b: RulesView) -> bool {
    &&& a.prune == b.prune
    &&& a.transitive == b.transitive
    &&& a.content_roots.len() == b.content_roots.len()
    &&& forall|i: int|
        0 <= i < a.content_roots.len() ==> same_path(#[trigger] a.content_roots[i], b.content_roots[i])
    &&& same_policy_set(a.allow_policies, b.allow_policies)
    &&& same_policy_set(a.deny_policies, b.deny_policies)
}

/// Two edges are equal: same name, same rules.
pub open spec fn same_edge(a: EdgeView, b: EdgeView) -> bool {
    a.name == b.name && same_rules(a.rules, b.rules)
}

fn policy_in(p: &FilePolicy, set: &[FilePolicy]) -> (r: bool)
    ensures
        r == policy_member(p@, policy_views(set@)),
{
    let mut j: usize = 0;
    while j < set.len()
        invariant
            j <= set.len(),
            forall|k: int| 0 <= k < j ==> !same_policy(p@, #[trigger] policy_views(set@)[k]),
        decreases set.len() - j,
    {
        let same_kind = match (p.kind, set[j].kind) {
            (PolicyKind::File, PolicyKind::File) => true,
            (PolicyKind::Prefix, PolicyKind::Prefix) => true,
            (PolicyKind::SubPath, PolicyKind::SubPath) => true,
            (PolicyKind::Regex, PolicyKind::Regex) => true,
            _ => false,
        };
        assert(policy_views(set@)[j as int] == set@[j as int]@);
        if same_kind {
            let a = chars_of(p.path.as_str());
            let b = chars_of(set[j].path.as_str());
            let same = match p.kind {
                PolicyKind::Regex => crate::text::chars_eq(a.as_slice(), b.as_slice()),
                _ => same_path_exec(a.as_slice(), b.as_slice()),
            };
            if same {
                return true;
            }
        }
        j = j + 1;
    }
    false
}

fn policies_cover(a: &[FilePolicy], b: &[FilePolicy]) -> (r: bool)
    ensures
        r == policies_within(policy_views(a@), policy_views(b@)),
{
    let mut i: usize = 0;
    while i < a.len()
        invariant
            i <= a.len(),
            forall|k: int| 0 <= k < i ==> policy_member(#[trigger] policy_views(a@)[k], policy_views(b@)),
        decreases a.len() - i,
    {
        assert(policy_views(a@)[i as int] == a@[i as int]@);
        if !policy_in(&a[i], b) {
            return false;
        }
        i = i + 1;
    }
    true
}

fn same_policies(a: &[FilePolicy], b: &[FilePolicy]) -> (r: bool)
    ensures
        r == same_policy_set(policy_views(a@), policy_views(b@)),
{
    let x = policies_cover(a, b);
    let y = policies_cover(b, a);
    x && y
}

/// Whether two edges are equal.
fn edge_equal(a: &ResolvedDependency, b: &ResolvedDependency) -> (r: bool)
    ensures
        r == same_edge(a@, b@),
{
    if !a.name.same(&b.name) || a.rules.prune != b.rules.prune || a.rules.transitive != b.rules.transitive {
        return false;
    }
    let ra = &a.rules.content_roots;
    let rb = &b.rules.content_roots;
    if ra.len() != rb.len() {
        return false;
    }
    let mut i: usize = 0;
    while i < ra.len()
        invariant
            i <= ra.len(),
            ra.len() == rb.len(),
            ra@ == a.rules.content_roots@,
            rb@ == b.rules.content_roots@,
            forall|k: int| 0 <= k < i ==> same_path(#[trigger] a@.rules.content_roots[k], b@.rules.content_roots[k]),
        decreases ra.len() - i,
    {
        assert(a@.rules.content_roots[i as int] == ra@[i as int].value@);
        assert(b@.rules.content_roots[i as int] == rb@[i as int].value@);
        if !same_path_exec(chars_of(ra[i].value.as_str()).as_slice(), chars_of(rb[i].value.as_str()).as_slice()) {
            return false;
        }
        i = i + 1;
    }
    same_policies(a.rules.allow_policies.as_slice(), b.rules.allow_policies.as_slice())
        && same_policies(a.rules.deny_policies.as_slice(), b.rules.deny_policies.as_slice())
}


/// Whether two paths are the same.
fn same_path_str(a: &str, b: &str) -> (r: bool)
    ensures
        r == same_path(a@, b@),
{
    same_path_exec(chars_of(a).as_slice(), chars_of(b).as_slice())
}

fn source_path(worktree: &str, content_root: &str, package_path: &str) -> (r: String)
    ensures
        r@ == join_path(join_path(worktree@, content_root@), package_path@),
{
    let base = join_path_exec(worktree, content_root);
    join_path_exec(base.as_str(), package_path)
}

fn last_reading_exec(plan: &Vec<ProtoFileMapping>, src: &str) -> (r: Option<usize>)
    ensures
        match r {
            Some(i) => last_reading(mapping_views(plan@), src@) == Some(i as int),
            None => last_reading(mapping_views(plan@), src@) is None,
        },
{
    let ghost pv = mapping_views(plan@);
    let mut k: usize = plan.len();
    assert(pv.take(k as int) =~= pv);
    while k > 0
        invariant
            k <= plan.len(),
            pv == mapping_views(plan@),
            last_reading(pv, src@) == last_reading(pv.take(k as int), src@),
        decreases k,
    {
        let m = &plan[k - 1];
        assert(pv.take(k as int).last() == m@);
        assert(pv.take(k as int).drop_last() =~= pv.take(k - 1));
        let p = source_path(m.worktree.as_str(), m.content_root.as_str(), m.package_path.as_str());
        if same_path_str(p.as_str(), src) {
            return Some(k - 1);
        }
        k = k - 1;
    }
    None
}

fn last_writing_exec(plan: &Vec<ProtoFileMapping>, target: &str) -> (r: Option<usize>)
    ensures
        match r {
            Some(i) => last_writing(mapping_views(plan@), target@) == Some(i as int),
            None => last_writing(mapping_views(plan@), target@) is None,
        },
{
    let ghost pv = mapping_views(plan@);
    let mut k: usize = plan.len();
    assert(pv.take(k as int) =~= pv);
    while k > 0
        invariant
            k <= plan.len(),
            pv == mapping_views(plan@),
            last_writing(pv, target@) == last_writing(pv.take(k as int), target@),
        decreases k,
    {
        let m = &plan[k - 1];
        assert(pv.take(k as int).last() == m@);
        assert(pv.take(k as int).drop_last() =~= pv.take(k - 1));
        if same_path_str(m.package_path.as_str(), target) {
            return Some(k - 1);
        }
        k = k - 1;
    }
    None
}

fn path_set_contains(v: &Vec<String>, p: &str) -> (r: bool)
    ensures
        r == exists|i: int| 0 <= i < v@.len() && same_path(#[trigger] v@[i]@, p@),
{
    let mut i: usize = 0;
    while i < v.len()
        invariant
            i <= v.len(),
            forall|k: int| 0 <= k < i ==> !same_path(#[trigger] v@[k]@, p@),
        decreases v.len() - i,
    {
        if same_path_str(v[i].as_str(), p) {
            return true;
        }
        i = i + 1;
    }
    false
}

/// Puts a path in a set of paths, unless a path there denotes the same one.
fn path_set_insert(v: &mut Vec<String>, p: &str)
    ensures
        (exists|i: int| 0 <= i < old(v)@.len() && same_path(#[trigger] old(v)@[i]@, p@)) ==> final(v)@
            == old(v)@,
        !(exists|i: int| 0 <= i < old(v)@.len() && same_path(#[trigger] old(v)@[i]@, p@)) ==> final(v)@
            == old(v)@.push(final(v)@.last()) && final(v)@.last()@ == p@,
{
    if !path_set_contains(v, p) {
        let ghost before = v@;
        v.push(String::from_str(p));
        assert(v@ =~= before.push(v@.last()));
    }
}

/// The paths of a set that do not denote `p`.
pub open spec fn paths_without(s: Seq<Seq<char>>, p: Seq<char>) -> Seq<Seq<char>> {
    s.filter(|x: Seq<char>| !same_path(x, p))
}

/// Takes out of a set of paths those that denote `p`.
fn path_set_remove(v: &mut Vec<String>, p: &str)
    ensures
        crate::text::views(final(v)@) == paths_without(crate::text::views(old(v)@), p@),
{
    let ghost vv = crate::text::views(v@);
    let mut kept: Vec<String> = Vec::new();
    let mut i: usize = 0;
    assert(vv.take(0) =~= Seq::<Seq<char>>::empty());
    assert(crate::text::views(kept@) =~= Seq::<Seq<char>>::empty());
    while i < v.len()
        invariant
            i <= v.len(),
            vv == crate::text::views(v@),
            crate::text::views(kept@) == paths_without(vv.take(i as int), p@),
        decreases v.len() - i,
    {
        assert(vv.take(i + 1).drop_last() =~= vv.take(i as int));
        assert(vv.take(i + 1).last() == v@[i as int]@);
        reveal(Seq::filter);
        let ghost before = crate::text::views(kept@);
        if !same_path_str(v[i].as_str(), p) {
            let c = v[i].clone();
            kept.push(c);
            assert(crate::text::views(kept@) =~= before.push(vv[i as int]));
        } else {
            assert(crate::text::views(kept@) =~= before);
        }
        i = i + 1;
    }
    assert(vv.take(v.len() as int) =~= vv);
    *v = kept;
}

/// The files still to find for a pruned module, the files already planned while it is
/// pruned, and the module itself.
struct PruneContext {
    root: usize,
    remaining: Vec<String>,
    seen: Vec<String>,
}

struct Context {
    plan: Vec<ProtoFileMapping>,
    deny: Vec<DenyPolicies>,
    prunes: Vec<PruneContext>,
    active: Vec<ResolvedDependency>,
    additional: Vec<ResolvedDependency>,
    unresolved: Vec<(usize, String)>,
}

/// Every edge among some leads to a module of the graph.
pub open spec fn edges_resolved(mods: Seq<ModuleView>, es: Seq<ResolvedDependency>) -> bool {
    forall|k: int| 0 <= k < es.len() ==> is_resolved(mods, #[trigger] es[k]@.name)
}

impl Context {
    spec fn wf(&self, root: super::RootView, listings: Seq<SourceListing>) -> bool {
        &&& plan_wf(mapping_views(self.plan@))
        &&& plan_traced(root, listings, mapping_views(self.plan@))
        &&& edges_resolved(root.modules, self.additional@)
        &&& forall|k: int| 0 <= k < self.additional@.len() ==> graph_edge(root, #[trigger] self.additional@[k]@)
        &&& forall|k: int| 0 <= k < self.prunes@.len() ==> #[trigger] self.prunes@[k].root < root.modules.len()
        &&& forall|k: int| 0 <= k < self.unresolved@.len() ==> #[trigger] self.unresolved@[k].0 < root.modules.len()
        &&& self.prunes@.len() > 0 || self.unresolved@.len() > 0 ==> has_pruned_edge(root)
        &&& !has_pruned_edge(root) ==> plan_allowed(root, listings, mapping_views(self.plan@))
    }

    /// Offers a copy to the plan; when it is admitted, the packages still to find stop
    /// waiting for its target and count it as seen.
    fn add_mapping(
        &mut self,
        m: ProtoFileMapping,
        Ghost(rv): Ghost<super::RootView>,
        Ghost(ls): Ghost<Seq<SourceListing>>,
    )
        requires
            old(self).wf(rv, ls),
            copy_traced(rv, ls, m@),
            !has_pruned_edge(rv) ==> allowed_copy(rv, ls, m@),
        ensures
            final(self).wf(rv, ls),
            mapping_views(final(self).plan@) == offer(mapping_views(old(self).plan@), m@),
            plan_extends(mapping_views(old(self).plan@), mapping_views(final(self).plan@)),
            covered(mapping_views(final(self).plan@), m@.source),
            final(self).deny@ == old(self).deny@,
            final(self).active@ == old(self).active@,
            final(self).additional@ == old(self).additional@,
            final(self).unresolved@ == old(self).unresolved@,
            final(self).prunes@.len() == old(self).prunes@.len(),
            forall|j: int| 0 <= j < final(self).prunes@.len() ==> #[trigger] final(self).prunes@[j].root
                == old(self).prunes@[j].root,
            waiting_kept(old(self).prunes@, final(self).prunes@, mapping_views(final(self).plan@)),
            forall|j: int, q: Seq<char>|
                0 <= j < final(self).prunes@.len() && #[trigger] path_in(crate::text::views(final(self).prunes@[j].seen@), q)
                    ==> path_in(crate::text::views(old(self).prunes@[j].seen@), q) || path_planned(
                    mapping_views(final(self).plan@),
                    q,
                ),
    {
        let ghost pv = mapping_views(self.plan@);
        let src = source_path(m.worktree.as_str(), m.content_root.as_str(), m.package_path.as_str());
        assert(src@ == full_path(m@.source));
        proof {
            lemma_last_reading(pv, src@);
            lemma_last_writing(pv, m.package_path@);
        }
        match last_reading_exec(&self.plan, src.as_str()) {
            Some(i) => {
                assert(pv[i as int] == self.plan@[i as int]@);
                if !same_path_str(self.plan[i].package_path.as_str(), m.package_path.as_str()) {
                    assert(same_path(full_path(pv[i as int].source), full_path(m@.source)));
                    assert(covered(pv, m@.source));
                    return;
                }
            },
            None => {},
        }
        match last_writing_exec(&self.plan, m.package_path.as_str()) {
            Some(i) => {
                assert(pv[i as int] == self.plan@[i as int]@);
                if !same_path_str(self.plan[i].worktree.as_str(), m.worktree.as_str())
                    || !same_path_str(self.plan[i].content_root.as_str(), m.content_root.as_str()) {
                    assert(same_path(pv[i as int].source.package_path, m@.source.package_path));
                    assert(covered(pv, m@.source));
                    return;
                }
            },
            None => {},
        }
        assert(admitted(pv, m@));
        let mut k: usize = 0;
        while k < self.prunes.len()
            invariant
                k <= self.prunes@.len(),
                self.prunes@.len() == old(self).prunes@.len(),
                forall|j: int| 0 <= j < self.prunes@.len() ==> #[trigger] self.prunes@[j].root
                    == old(self).prunes@[j].root,
                self.plan@ == old(self).plan@,
                self.deny@ == old(self).deny@,
                self.active@ == old(self).active@,
                self.additional@ == old(self).additional@,
                self.unresolved@ == old(self).unresolved@,
                forall|j: int| 0 <= j < k ==> crate::text::views(#[trigger] self.prunes@[j].remaining@) == paths_without(
                    crate::text::views(old(self).prunes@[j].remaining@),
                    m.package_path@,
                ),
                forall|j: int| 0 <= j < k ==> crate::text::views(#[trigger] self.prunes@[j].seen@) == crate::text::views(
                    old(self).prunes@[j].seen@,
                ) || crate::text::views(self.prunes@[j].seen@) == crate::text::views(old(self).prunes@[j].seen@).push(
                    m.package_path@,
                ),
                forall|j: int| k <= j < self.prunes@.len() ==> #[trigger] self.prunes@[j] == old(self).prunes@[j],
            decreases self.prunes@.len() - k,
        {
            let ghost before = self.prunes@;
            let mut p = self.prunes.remove(k);
            let ghost seen0 = p.seen@;
            path_set_remove(&mut p.remaining, m.package_path.as_str());
            path_set_insert(&mut p.seen, m.package_path.as_str());
            proof {
                if p.seen@ != seen0 {
                    assert(crate::text::views(p.seen@) =~= crate::text::views(seen0).push(m.package_path@));
                }
            }
            self.prunes.insert(k, p);
            proof {
                assert forall|j: int| 0 <= j < self.prunes@.len() && j != k implies #[trigger] self.prunes@[j] == before[j] by {}
            }
            k = k + 1;
        }
        proof {
            lemma_offer_keeps_wf(pv, m@);
        }
        let ghost mv = m@;
        self.plan.push(m);
        assert(mapping_views(self.plan@) =~= pv.push(mv));
        proof {
            let pl = mapping_views(self.plan@);
            assert(same_path(pl[pv.len() as int].source.package_path, mv.source.package_path));
            assert(path_planned(pl, mv.source.package_path));
            assert forall|j: int, q: Seq<char>|
                0 <= j < old(self).prunes@.len() && #[trigger] path_in(crate::text::views(old(self).prunes@[j].remaining@), q)
                    implies found_or_waiting(pl, crate::text::views(self.prunes@[j].remaining@), q) by {
                lemma_path_in_without(crate::text::views(old(self).prunes@[j].remaining@), mv.source.package_path, q);
                if same_path(q, mv.source.package_path) {
                    assert(same_path(pl[pv.len() as int].source.package_path, q));
                }
            }
            assert forall|j: int, q: Seq<char>|
                0 <= j < self.prunes@.len() && #[trigger] path_in(crate::text::views(self.prunes@[j].seen@), q)
                    implies path_in(crate::text::views(old(self).prunes@[j].seen@), q) || path_planned(pl, q) by {
                let sv = crate::text::views(self.prunes@[j].seen@);
                let ov = crate::text::views(old(self).prunes@[j].seen@);
                let i = choose|i: int| 0 <= i < sv.len() && same_path(#[trigger] sv[i], q);
                if i < ov.len() {
                    assert(sv[i] == ov[i]);
                } else {
                    assert(same_path(pl[pv.len() as int].source.package_path, q));
                }
            }
        }
        assert(same_path(full_path(mv.source), full_path(mv.source)));
        assert(mapping_views(self.plan@)[pv.len() as int] == mv);
        assert(!has_pruned_edge(rv) ==> plan_allowed(rv, ls, mapping_views(self.plan@))) by {
            if !has_pruned_edge(rv) {
                assert forall|k: int| 0 <= k < mapping_views(self.plan@).len() implies allowed_copy(
                    rv,
                    ls,
                    #[trigger] mapping_views(self.plan@)[k],
                ) by {
                    if k < pv.len() {
                        assert(mapping_views(self.plan@)[k] == pv[k]);
                    }
                }
            }
        }
        assert(plan_traced(rv, ls, mapping_views(self.plan@))) by {
            assert forall|k: int| 0 <= k < mapping_views(self.plan@).len() implies copy_traced(
                rv,
                ls,
                #[trigger] mapping_views(self.plan@)[k],
            ) by {
                if k < pv.len() {
                    assert(mapping_views(self.plan@)[k] == pv[k]);
                }
            }
        }
    }

    /// Whether some deny policy of the dependencies being planned denies a file.
    fn should_deny_file(&self, file: &str) -> (r: bool)
        ensures
            r == exists|k: int| 0 <= k < self.deny@.len() && denied_by(#[trigger] self.deny@[k].policies(), file@),
    {
        let mut i: usize = 0;
        while i < self.deny.len()
            invariant
                i <= self.deny.len(),
                forall|k: int| 0 <= k < i ==> !denied_by(#[trigger] self.deny@[k].policies(), file@),
            decreases self.deny.len() - i,
        {
            if DenyPolicies::should_deny_file(&self.deny[i], file) {
                return true;
            }
            i = i + 1;
        }
        false
    }

    fn is_active(&self, d: &ResolvedDependency) -> (r: bool)
        ensures
            r == edge_in(self.active@, d@),
    {
        let mut i: usize = 0;
        while i < self.active.len()
            invariant
                i <= self.active.len(),
                forall|k: int| 0 <= k < i ==> !same_edge(#[trigger] self.active@[k]@, d@),
            decreases self.active.len() - i,
        {
            if edge_equal(&self.active[i], d) {
                return true;
            }
            i = i + 1;
        }
        false
    }

    fn is_additional(&self, d: &ResolvedDependency) -> (r: bool)
        ensures
            r == edge_in(self.additional@, d@),
    {
        let mut i: usize = 0;
        while i < self.additional.len()
            invariant
                i <= self.additional.len(),
                forall|k: int| 0 <= k < i ==> !same_edge(#[trigger] self.additional@[k]@, d@),
            decreases self.additional.len() - i,
        {
            if edge_equal(&self.additional[i], d) {
                return true;
            }
            i = i + 1;
        }
        false
    }
}

/// The position of the module with a name.
fn module_index(root: &ResolvedRootModule, name: &ModuleName) -> (r: usize)
    requires
        is_resolved(root@.modules, name@),
    ensures
        r < root.modules@.len(),
        root@.modules[r as int].name == name@,
        forall|k: int| 0 <= k < r ==> root@.modules[k].name != name@,
{
    let mut i: usize = 0;
    while i < root.modules.len()
        invariant
            i <= root.modules.len(),
            is_resolved(root@.modules, name@),
            forall|k: int| 0 <= k < i ==> root@.modules[k].name != name@,
        decreases root.modules.len() - i,
    {
        assert(root@.modules[i as int] == root.modules@[i as int]@);
        if root.modules[i].name.same(name) {
            return i;
        }
        i = i + 1;
    }
    proof {
        let k = choose|k: int| 0 <= k < root@.modules.len() && #[trigger] root@.modules[k].name == name@;
        assert(root@.modules[k].name != name@);
    }
    0
}

/// Whether some module of the graph has a name.
fn name_resolved(root: &ResolvedRootModule, name: &ModuleName) -> (r: bool)
    ensures
        r == is_resolved(root@.modules, name@),
{
    let mut i: usize = 0;
    while i < root.modules.len()
        invariant
            i <= root.modules.len(),
            forall|k: int| 0 <= k < i ==> root@.modules[k].name != name@,
        decreases root.modules.len() - i,
    {
        assert(root@.modules[i as int] == root.modules@[i as int]@);
        if root.modules[i].name.same(name) {
            assert(root@.modules[i as int].name == name@);
            return true;
        }
        i = i + 1;
    }
    false
}

/// Whether every edge of the graph, of the root or of a module, leads to one of its
/// modules (see `closed_graph`), as `plan_copies` needs.
pub fn graph_is_closed(resolved: &ResolvedRootModule) -> (r: bool)
    ensures
        r == super::resolve::closed_graph(resolved@.dependencies, resolved@.modules),
{
    let ghost roots = resolved@.dependencies;
    let ghost mods = resolved@.modules;
    let mut k: usize = 0;
    while k < resolved.dependencies.len()
        invariant
            k <= resolved.dependencies.len(),
            roots == resolved@.dependencies,
            mods == resolved@.modules,
            forall|j: int| 0 <= j < k ==> is_resolved(mods, #[trigger] roots[j].name),
        decreases resolved.dependencies.len() - k,
    {
        assert(roots[k as int] == resolved.dependencies@[k as int]@);
        if !name_resolved(resolved, &resolved.dependencies[k].name) {
            assert(!is_resolved(mods, roots[k as int].name));
            return false;
        }
        k = k + 1;
    }
    let mut i: usize = 0;
    while i < resolved.modules.len()
        invariant
            i <= resolved.modules.len(),
            roots == resolved@.dependencies,
            mods == resolved@.modules,
            forall|j: int| 0 <= j < roots.len() ==> is_resolved(mods, #[trigger] roots[j].name),
            forall|a: int, b: int|
                0 <= a < i && 0 <= b < mods[a].dependencies.len() ==> is_resolved(
                    mods,
                    #[trigger] mods[a].dependencies[b].name,
                ),
        decreases resolved.modules.len() - i,
    {
        let m = &resolved.modules[i];
        assert(mods[i as int] == m@);
        let mut j: usize = 0;
        while j < m.dependencies.len()
            invariant
                i < resolved.modules.len(),
                j <= m.dependencies.len(),
                *m == resolved.modules@[i as int],
                roots == resolved@.dependencies,
                mods == resolved@.modules,
                mods[i as int] == m@,
                forall|a: int, b: int|
                    0 <= a < i && 0 <= b < mods[a].dependencies.len() ==> is_resolved(
                        mods,
                        #[trigger] mods[a].dependencies[b].name,
                    ),
                forall|b: int| 0 <= b < j ==> is_resolved(mods, #[trigger] mods[i as int].dependencies[b].name),
            decreases m.dependencies.len() - j,
        {
            assert(mods[i as int].dependencies[j as int] == m.dependencies@[j as int]@);
            if !name_resolved(resolved, &m.dependencies[j].name) {
                assert(!is_resolved(mods, mods[i as int].dependencies[j as int].name));
                return false;
            }
            j = j + 1;
        }
        i = i + 1;
    }
    true
}

/// The first listing that serves an edge, if there is one.
fn find_listing<'a>(listings: &'a Vec<SourceListing>, d: &ResolvedDependency) -> (r: Option<&'a SourceListing>)
    ensures
        r matches Some(l) ==> exists|k: int|
            0 <= k < listings@.len() && #[trigger] listings@[k] == *l && first_listing_for(listings@, d@, k),
        r is None ==> forall|k: int| 0 <= k < listings@.len() ==> !listing_for(#[trigger] listings@[k], d@),
{
    let mut k: usize = 0;
    while k < listings.len()
        invariant
            k <= listings.len(),
            forall|j: int| 0 <= j < k ==> !listing_for(#[trigger] listings@[j], d@),
        decreases listings.len() - k,
    {
        let l = &listings[k];
        if l.name.same(&d.name) && l.content_roots.len() == d.rules.content_roots.len() {
            let mut same = true;
            let mut i: usize = 0;
            while i < l.content_roots.len()
                invariant
                    i <= l.content_roots.len(),
                    l.content_roots.len() == d.rules.content_roots.len(),
                    same == forall|x: int|
                        0 <= x < i ==> same_path(
                            #[trigger] l.content_roots@[x]@,
                            d@.rules.content_roots[x],
                        ),
                decreases l.content_roots.len() - i,
            {
                if !same_path_str(l.content_roots[i].as_str(), d.rules.content_roots[i].value.as_str()) {
                    same = false;
                }
                i = i + 1;
            }
            if same {
                assert(listings@[k as int] == *l);
                assert(first_listing_for(listings@, d@, k as int));
                return Some(l);
            }
        }
        k = k + 1;
    }
    None
}

/// The imports of a file: those of the first entry for its path; a file whose imports
/// were not read has none.
fn imports_of<'a>(imports: &'a Vec<FileImports>, path: &str) -> (r: Option<&'a Vec<String>>)
    ensures
        match r {
            Some(v) => exists|k: int|
                0 <= k < imports@.len() && same_path(#[trigger] imports@[k].path@, path@) && *v
                    == imports@[k].imports && forall|j: int|
                    0 <= j < k ==> !same_path(#[trigger] imports@[j].path@, path@),
            None => forall|k: int| 0 <= k < imports@.len() ==> !same_path(#[trigger] imports@[k].path@, path@),
        },
{
    let mut k: usize = 0;
    while k < imports.len()
        invariant
            k <= imports.len(),
            forall|j: int| 0 <= j < k ==> !same_path(#[trigger] imports@[j].path@, path@),
        decreases imports.len() - k,
    {
        if same_path_str(imports[k].path.as_str(), path) {
            return Some(&imports[k].imports);
        }
        k = k + 1;
    }
    None
}

/// The module graph is closed: every edge of a module leads to a module.
pub open spec fn modules_closed(mods: Seq<ModuleView>) -> bool {
    forall|i: int, j: int|
        0 <= i < mods.len() && 0 <= j < mods[i].dependencies.len() ==> is_resolved(
            mods,
            #[trigger] mods[i].dependencies[j].name,
        )
}

fn clone_edges(v: &Vec<ResolvedDependency>) -> (r: Vec<ResolvedDependency>)
    ensures
        r@.len() == v@.len(),
        forall|k: int| 0 <= k < v@.len() ==> #[trigger] r@[k]@ == v@[k]@,
{
    let mut r: Vec<ResolvedDependency> = Vec::new();
    let mut i: usize = 0;
    while i < v.len()
        invariant
            i <= v.len(),
            r@.len() == i,
            forall|k: int| 0 <= k < i ==> #[trigger] r@[k]@ == v@[k]@,
        decreases v.len() - i,
    {
        r.push(v[i].clone());
        i = i + 1;
    }
    r
}

/// The listing found, as a value.
pub open spec fn found(listing: Option<&SourceListing>) -> Option<SourceListing> {
    match listing {
        Some(l) => Some(*l),
        None => None,
    }
}

/// The files of a listing that no deny policy in force denies.
fn not_denied_sources(ctx: &Context, listing: Option<&SourceListing>) -> (r: Vec<ProtoSource>)
    requires
        ctx.deny@.len() > 0,
    ensures
        forall|x: int| 0 <= x < r@.len() ==> candidate(found(listing), ctx.deny@.last().policies(), #[trigger] r@[x]@),
        listing matches Some(l) ==> forall|j: int|
            #![trigger l.sources@[j]]
            0 <= j < l.sources@.len() && (forall|k: int|
                0 <= k < ctx.deny@.len() ==> !denied_by(#[trigger] ctx.deny@[k].policies(), l.sources@[j]@.package_path))
                ==> exists|x: int| 0 <= x < r@.len() && #[trigger] r@[x]@ == l.sources@[j]@,
{
    let ghost dp = ctx.deny@.last().policies();
    let mut r: Vec<ProtoSource> = Vec::new();
    match listing {
        None => {},
        Some(l) => {
            let mut i: usize = 0;
            while i < l.sources.len()
                invariant
                    i <= l.sources.len(),
                    ctx.deny@.len() > 0,
                    dp == ctx.deny@.last().policies(),
                    forall|x: int| 0 <= x < r@.len() ==> candidate(Some(*l), dp, #[trigger] r@[x]@),
                    forall|j: int|
                        #![trigger l.sources@[j]]
                        0 <= j < i && (forall|k: int|
                            0 <= k < ctx.deny@.len() ==> !denied_by(#[trigger] ctx.deny@[k].policies(), l.sources@[j]@.package_path))
                            ==> exists|x: int| 0 <= x < r@.len() && #[trigger] r@[x]@ == l.sources@[j]@,
                decreases l.sources.len() - i,
            {
                let ghost before = r@;
                if !ctx.should_deny_file(l.sources[i].package_path.as_str()) {
                    let ghost k = ctx.deny@.len() - 1;
                    assert(!denied_by(ctx.deny@[k].policies(), l.sources@[i as int].package_path@));
                    assert(from_listing(*l, l.sources@[i as int]@));
                    r.push(l.sources[i].clone());
                    assert(r@[r@.len() - 1]@ == l.sources@[i as int]@);
                }
                assert forall|j: int|
                    #![trigger l.sources@[j]]
                    0 <= j < i + 1 && (forall|k: int|
                        0 <= k < ctx.deny@.len() ==> !denied_by(#[trigger] ctx.deny@[k].policies(), l.sources@[j]@.package_path))
                        implies exists|x: int| 0 <= x < r@.len() && #[trigger] r@[x]@ == l.sources@[j]@ by {
                    if j < i {
                        let x = choose|x: int| 0 <= x < before.len() && #[trigger] before[x]@ == l.sources@[j]@;
                        assert(r@[x] == before[x]);
                    }
                }
                i = i + 1;
            }
        },
    }
    r
}

/// The files the allow policies of an edge admit.
fn allowed_sources(
    protos: &Vec<ProtoSource>,
    d: &ResolvedDependency,
    Ghost(lo): Ghost<Option<SourceListing>>,
    Ghost(dp): Ghost<Seq<(PolicyKind, Seq<char>)>>,
) -> (r: Vec<ProtoSource>)
    requires
        forall|x: int| 0 <= x < protos@.len() ==> candidate(lo, dp, #[trigger] protos@[x]@),
    ensures
        forall|x: int|
            0 <= x < r@.len() ==> candidate(lo, dp, #[trigger] r@[x]@) && allowed_by(
                d@.rules.allow_policies,
                r@[x]@.package_path,
            ),
        forall|j: int|
            #![trigger protos@[j]]
            0 <= j < protos@.len() && allowed_by(d@.rules.allow_policies, protos@[j]@.package_path) ==> exists|x: int|
                0 <= x < r@.len() && #[trigger] r@[x]@ == protos@[j]@,
{
    let mut r: Vec<ProtoSource> = Vec::new();
    let mut i: usize = 0;
    while i < protos.len()
        invariant
            i <= protos.len(),
            forall|x: int| 0 <= x < protos@.len() ==> candidate(lo, dp, #[trigger] protos@[x]@),
            forall|x: int|
                0 <= x < r@.len() ==> candidate(lo, dp, #[trigger] r@[x]@) && allowed_by(
                    d@.rules.allow_policies,
                    r@[x]@.package_path,
                ),
            forall|j: int|
                #![trigger protos@[j]]
                0 <= j < i && allowed_by(d@.rules.allow_policies, protos@[j]@.package_path) ==> exists|x: int|
                    0 <= x < r@.len() && #[trigger] r@[x]@ == protos@[j]@,
        decreases protos.len() - i,
    {
        let ghost before = r@;
        if AllowPolicies::should_allow_file(&d.rules.allow_policies, protos[i].package_path.as_str()) {
            assert(candidate(lo, dp, protos@[i as int]@));
            r.push(protos[i].clone());
            assert(r@[r@.len() - 1]@ == protos@[i as int]@);
        }
        assert forall|j: int|
            #![trigger protos@[j]]
            0 <= j < i + 1 && allowed_by(d@.rules.allow_policies, protos@[j]@.package_path) implies exists|x: int|
                0 <= x < r@.len() && #[trigger] r@[x]@ == protos@[j]@ by {
            if j < i {
                let x = choose|x: int| 0 <= x < before.len() && #[trigger] before[x]@ == protos@[j]@;
                assert(r@[x] == before[x]);
            }
        }
        i = i + 1;
    }
    r
}

/// The entry `k` of `s` is the last one with its package path.
pub open spec fn last_of_path(s: Seq<ProtoSource>, k: int, n: int) -> bool {
    forall|j: int| k < j < n ==> !same_path(#[trigger] s[j].package_path@, s[k].package_path@)
}

/// No two entries of `s` have the same package path.
pub open spec fn distinct_paths(s: Seq<ProtoSource>) -> bool {
    forall|x: int, y: int|
        0 <= x < y < s.len() ==> !same_path(#[trigger] s[x].package_path@, #[trigger] s[y].package_path@)
}

/// Each entry of `r` is an entry of the first `n` of `orig` that no later one of
/// them shares its package path with.
pub open spec fn kept_last(r: Seq<ProtoSource>, orig: Seq<ProtoSource>, n: int) -> bool {
    forall|x: int| #![trigger r[x]] 0 <= x < r.len() ==> exists|k: int| #![trigger orig[k]]
        0 <= k < n && r[x]@ == orig[k]@ && last_of_path(orig, k, n)
}

/// Each package path of the first `n` entries of `orig` is that of an entry of `r`.
pub open spec fn covers_paths(r: Seq<ProtoSource>, orig: Seq<ProtoSource>, n: int) -> bool {
    forall|k: int| #![trigger orig[k]] 0 <= k < n ==> exists|x: int| #![trigger r[x]]
        0 <= x < r.len() && same_path(r[x].package_path@, orig[k].package_path@)
}

/// Putting the entry `i` of `orig` in `r0`, over the entry with its path or at
/// the end, keeps no two entries on one path.
#[verifier::rlimit(30)]
proof fn lemma_keyed_distinct(r0: Seq<ProtoSource>, r: Seq<ProtoSource>, orig: Seq<ProtoSource>, i: int, ni: int)
    requires
        0 <= i < orig.len(),
        distinct_paths(r0),
        0 <= ni <= r0.len(),
        r.len() == if ni == r0.len() { r0.len() + 1 } else { r0.len() + 0 },
        r[ni] == orig[i],
        forall|y: int| 0 <= y < r.len() && y != ni ==> #[trigger] r[y] == r0[y],
        ni < r0.len() ==> same_path(r0[ni].package_path@, orig[i].package_path@),
        forall|y: int| 0 <= y < r0.len() && y != ni ==> !same_path(#[trigger] r0[y].package_path@, orig[i].package_path@),
    ensures
        distinct_paths(r),
{
    assert forall|x: int, y: int| 0 <= x < y < r.len() implies !same_path(
        #[trigger] r[x].package_path@,
        #[trigger] r[y].package_path@,
    ) by {
        if x == ni {
            assert(r[y] == r0[y]);
        } else if y == ni {
            assert(r[x] == r0[x]);
        } else {
            assert(r[x] == r0[x] && r[y] == r0[y]);
        }
    }
}

/// ... and keeps each entry the last one given with its path.
#[verifier::rlimit(30)]
proof fn lemma_keyed_last(r0: Seq<ProtoSource>, r: Seq<ProtoSource>, orig: Seq<ProtoSource>, i: int, ni: int)
    requires
        0 <= i < orig.len(),
        kept_last(r0, orig, i),
        0 <= ni <= r0.len(),
        r.len() == if ni == r0.len() { r0.len() + 1 } else { r0.len() + 0 },
        r[ni] == orig[i],
        forall|y: int| 0 <= y < r.len() && y != ni ==> #[trigger] r[y] == r0[y],
        forall|y: int| 0 <= y < r0.len() && y != ni ==> !same_path(#[trigger] r0[y].package_path@, orig[i].package_path@),
    ensures
        kept_last(r, orig, i + 1),
{
    assert forall|y: int| #![trigger r[y]] 0 <= y < r.len() implies exists|k: int| #![trigger orig[k]]
        0 <= k < i + 1 && r[y]@ == orig[k]@ && last_of_path(orig, k, i + 1) by {
        if y == ni {
            assert(r[y]@ == orig[i]@);
            assert(last_of_path(orig, i, i + 1));
        } else {
            assert(r0[y] == r[y]);
            let k0 = choose|k: int| #![trigger orig[k]] 0 <= k < i && r0[y]@ == orig[k]@ && last_of_path(orig, k, i);
            assert(r0[y].package_path@ == orig[k0].package_path@);
            assert(!same_path(orig[i].package_path@, orig[k0].package_path@));
            assert(last_of_path(orig, k0, i + 1));
        }
    }
}

/// ... and keeps each path given.
#[verifier::rlimit(30)]
proof fn lemma_keyed_covers(r0: Seq<ProtoSource>, r: Seq<ProtoSource>, orig: Seq<ProtoSource>, i: int, ni: int)
    requires
        0 <= i < orig.len(),
        covers_paths(r0, orig, i),
        0 <= ni <= r0.len(),
        r.len() == if ni == r0.len() { r0.len() + 1 } else { r0.len() + 0 },
        r[ni] == orig[i],
        forall|y: int| 0 <= y < r.len() && y != ni ==> #[trigger] r[y] == r0[y],
        ni < r0.len() ==> same_path(r0[ni].package_path@, orig[i].package_path@),
    ensures
        covers_paths(r, orig, i + 1),
{
    assert forall|k: int| #![trigger orig[k]] 0 <= k < i + 1 implies exists|y: int| #![trigger r[y]]
        0 <= y < r.len() && same_path(r[y].package_path@, orig[k].package_path@) by {
        if k == i {
            assert(same_path(r[ni].package_path@, orig[k].package_path@));
        } else {
            let y0 = choose|y: int| #![trigger r0[y]] 0 <= y < r0.len() && same_path(r0[y].package_path@, orig[k].package_path@);
            if y0 == ni {
                assert(same_path(r[ni].package_path@, orig[k].package_path@));
            } else {
                assert(r[y0] == r0[y0]);
                assert(same_path(r[y0].package_path@, orig[k].package_path@));
            }
        }
    }
}

/// With no two entries on one path, one entry on a path is the only one.
proof fn lemma_one_on_path(r0: Seq<ProtoSource>, x: int, q: Seq<char>)
    requires
        distinct_paths(r0),
        0 <= x < r0.len(),
        same_path(r0[x].package_path@, q),
    ensures
        forall|y: int| 0 <= y < r0.len() && y != x ==> !same_path(#[trigger] r0[y].package_path@, q),
{
    assert forall|y: int| 0 <= y < r0.len() && y != x implies !same_path(#[trigger] r0[y].package_path@, q) by {
        if y < x {
            assert(!same_path(r0[y].package_path@, r0[x].package_path@));
        } else {
            assert(!same_path(r0[x].package_path@, r0[y].package_path@));
        }
    }
}

/// The position of an entry on a path, if there is one.
fn position_on_path(r: &Vec<ProtoSource>, path: &str) -> (at: Option<usize>)
    ensures
        match at {
            Some(x) => x < r@.len() && same_path(r@[x as int].package_path@, path@),
            None => forall|j: int| 0 <= j < r@.len() ==> !same_path(#[trigger] r@[j].package_path@, path@),
        },
{
    let mut k: usize = 0;
    while k < r.len()
        invariant
            k <= r.len(),
            forall|j: int| 0 <= j < k ==> !same_path(#[trigger] r@[j].package_path@, path@),
        decreases r.len() - k,
    {
        if same_path_str(r[k].package_path.as_str(), path) {
            return Some(k);
        }
        k = k + 1;
    }
    None
}

/// Puts a file over the entry on its path, or at the end when there is none; says
/// where it went.
fn put_on_path(r: &mut Vec<ProtoSource>, p: ProtoSource) -> (ni: Ghost<int>)
    requires
        distinct_paths(old(r)@),
    ensures
        0 <= ni@ <= old(r)@.len(),
        final(r)@.len() == if ni@ == old(r)@.len() { old(r)@.len() + 1 } else { old(r)@.len() + 0 },
        final(r)@[ni@] == p,
        forall|y: int| 0 <= y < final(r)@.len() && y != ni@ ==> #[trigger] final(r)@[y] == old(r)@[y],
        ni@ < old(r)@.len() ==> same_path(old(r)@[ni@].package_path@, p.package_path@),
        forall|y: int| 0 <= y < old(r)@.len() && y != ni@ ==> !same_path(#[trigger] old(r)@[y].package_path@, p.package_path@),
{
    let ghost r0 = r@;
    match position_on_path(r, p.package_path.as_str()) {
        Some(x) => {
            proof {
                lemma_one_on_path(r0, x as int, p.package_path@);
            }
            r.set(x, p);
            Ghost(x as int)
        },
        None => {
            r.push(p);
            Ghost(r0.len() as int)
        },
    }
}

/// The files keyed by their package path: one entry per package path, the last
/// file given with that path.
#[verifier::rlimit(30)]
fn by_package_path(
    protos: Vec<ProtoSource>,
    Ghost(lo): Ghost<Option<SourceListing>>,
    Ghost(dp): Ghost<Seq<(PolicyKind, Seq<char>)>>,
) -> (r: Vec<ProtoSource>)
    requires
        forall|x: int| 0 <= x < protos@.len() ==> candidate(lo, dp, #[trigger] protos@[x]@),
    ensures
        forall|x: int| 0 <= x < r@.len() ==> candidate(lo, dp, #[trigger] r@[x]@),
        distinct_paths(r@),
        kept_last(r@, protos@, protos@.len() as int),
        covers_paths(r@, protos@, protos@.len() as int),
{
    let ghost orig = protos@;
    let mut r: Vec<ProtoSource> = Vec::new();
    let mut protos = protos;
    let ghost mut i: int = 0;
    while protos.len() > 0
        invariant
            0 <= i <= orig.len(),
            protos@ == orig.subrange(i, orig.len() as int),
            forall|x: int| 0 <= x < orig.len() ==> candidate(lo, dp, #[trigger] orig[x]@),
            forall|x: int| 0 <= x < r@.len() ==> candidate(lo, dp, #[trigger] r@[x]@),
            distinct_paths(r@),
            kept_last(r@, orig, i),
            covers_paths(r@, orig, i),
        decreases protos.len(),
    {
        let ghost r0 = r@;
        let p = protos.remove(0);
        assert(p == orig[i]);
        assert(candidate(lo, dp, p@));
        assert(protos@ =~= orig.subrange(i + 1, orig.len() as int));
        let Ghost(ni) = put_on_path(&mut r, p);
        proof {
            lemma_keyed_distinct(r0, r@, orig, i, ni);
            lemma_keyed_last(r0, r@, orig, i, ni);
            lemma_keyed_covers(r0, r@, orig, i, ni);
            i = i + 1;
        }
    }
    assert(orig.subrange(i, orig.len() as int).len() == 0);
    assert(i == orig.len());
    r
}

/// Takes out the first file with a package path, if there is one.
fn take_candidate(
    candidates: &mut Vec<ProtoSource>,
    path: &str,
    Ghost(lo): Ghost<Option<SourceListing>>,
    Ghost(dp): Ghost<Seq<(PolicyKind, Seq<char>)>>,
) -> (r: Option<ProtoSource>)
    requires
        forall|x: int| 0 <= x < old(candidates)@.len() ==> candidate(lo, dp, #[trigger] old(candidates)@[x]@),
    ensures
        r is Some ==> final(candidates)@.len() == old(candidates)@.len() - 1,
        r is None ==> final(candidates)@.len() == old(candidates)@.len(),
        forall|x: int| 0 <= x < final(candidates)@.len() ==> candidate(lo, dp, #[trigger] final(candidates)@[x]@),
        r matches Some(p) ==> candidate(lo, dp, p@),
        match r {
            Some(p) => exists|k: int|
                0 <= k < old(candidates)@.len() && same_path(#[trigger] old(candidates)@[k].package_path@, path@)
                    && (forall|j: int| 0 <= j < k ==> !same_path(#[trigger] old(candidates)@[j].package_path@, path@))
                    && p == old(candidates)@[k] && final(candidates)@ == old(candidates)@.remove(k),
            None => final(candidates)@ == old(candidates)@ && forall|k: int|
                0 <= k < old(candidates)@.len() ==> !same_path(#[trigger] old(candidates)@[k].package_path@, path@),
        },
{
    let mut k: usize = 0;
    while k < candidates.len()
        invariant
            k <= candidates.len(),
            candidates@ == old(candidates)@,
            forall|x: int| 0 <= x < old(candidates)@.len() ==> candidate(lo, dp, #[trigger] old(candidates)@[x]@),
            forall|j: int| 0 <= j < k ==> !same_path(#[trigger] old(candidates)@[j].package_path@, path@),
        decreases candidates.len() - k,
    {
        if same_path_str(candidates[k].package_path.as_str(), path) {
            let ghost before = candidates@;
            let p = candidates.remove(k);
            assert(candidate(lo, dp, before[k as int]@));
            assert(forall|x: int| 0 <= x < candidates@.len() ==> #[trigger] candidates@[x] == (if x < k {
                before[x]
            } else {
                before[x + 1]
            }));
            return Some(p);
        }
        k = k + 1;
    }
    None
}

fn mapping_of(p: &ProtoSource, module: &super::ResolvedModule) -> (r: ProtoFileMapping)
    ensures
        r@ == (MappingView { source: p@, module: module.name@, coordinate: module.coordinate@ }),
{
    ProtoFileMapping {
        worktree: p.worktree.clone(),
        content_root: p.content_root.clone(),
        package_path: p.package_path.clone(),
        module: module.name.clone(),
        coordinate: module.coordinate.clone(),
    }
}

/// A copy of a candidate file of an edge of the graph, to the edge's module, is traced.
proof fn lemma_traced(
    rv: super::RootView,
    ls: Seq<SourceListing>,
    e: EdgeView,
    lo: Option<SourceListing>,
    s: SourceView,
    i: int,
    m: MappingView,
)
    requires
        graph_edge(rv, e),
        candidate(lo, e.rules.deny_policies, s),
        lo matches Some(l) ==> exists|k: int| 0 <= k < ls.len() && #[trigger] ls[k] == l && listing_for(l, e),
        0 <= i < rv.modules.len(),
        rv.modules[i].name == e.name,
        m == (MappingView { source: s, module: e.name, coordinate: rv.modules[i].coordinate }),
    ensures
        copy_traced(rv, ls, m),
        edge_source(rv, ls, e, s),
{
    let l = lo->0;
    let k = choose|k: int| 0 <= k < ls.len() && #[trigger] ls[k] == l && listing_for(l, e);
    assert(listing_for(ls[k], e) && from_listing(ls[k], s));
    assert(edge_source(rv, ls, e, m.source));
    assert(rv.modules[i].name == m.module && rv.modules[i].coordinate == m.coordinate);
}

/// Plans the copy of the files of a dependency that is not pruned: every file not
/// denied and allowed.
fn plan_not_pruning(
    root: &ResolvedRootModule,
    listings: &Vec<SourceListing>,
    ctx: &mut Context,
    dep: &ResolvedDependency,
)
    requires
        old(ctx).wf(root@, listings@),
        is_resolved(root@.modules, dep@.name),
        graph_edge(root@, dep@),
    ensures
        final(ctx).unresolved@ == old(ctx).unresolved@,
        final(ctx).wf(root@, listings@),
        final(ctx).deny@ == old(ctx).deny@,
        final(ctx).active@ == old(ctx).active@,
        final(ctx).additional@ == old(ctx).additional@,
        final(ctx).prunes@.len() == old(ctx).prunes@.len(),
        plan_extends(mapping_views(old(ctx).plan@), mapping_views(final(ctx).plan@)),
        waiting_kept(old(ctx).prunes@, final(ctx).prunes@, mapping_views(final(ctx).plan@)),
        edge_files_covered_under(listings@, dep@, mapping_views(final(ctx).plan@), deny_views(old(ctx).deny@)),
        old(ctx).deny@.len() == 0 ==> edge_files_covered(listings@, dep@, mapping_views(final(ctx).plan@)),
        forall|p: int|
            mapping_views(old(ctx).plan@).len() <= p < mapping_views(final(ctx).plan@).len() ==> allowed_copy(
                root@,
                listings@,
                #[trigger] mapping_views(final(ctx).plan@)[p],
            ),
{
    let ghost plan0 = mapping_views(ctx.plan@);
    let ghost mods = root@.modules;
    let ghost rv = root@;
    let ghost ls = listings@;
    let ghost deny0 = ctx.deny@;
    ctx.deny.push(dep.rules.deny_policies.duplicate());
    let mi = module_index(root, &dep.name);
    let module = &root.modules[mi];
    let listing = find_listing(listings, dep);
    let ghost lo = found(listing);
    let ghost dp = dep@.rules.deny_policies;
    let ghost deny1 = ctx.deny@;
    assert(deny1.last().policies() == dp);
    let protos = not_denied_sources(ctx, listing);
    let allowed = allowed_sources(&protos, dep, Ghost(lo), Ghost(dp));
    proof {
        lemma_waiting_refl(ctx.prunes@, mapping_views(ctx.plan@));
    }
    let mut i: usize = 0;
    while i < allowed.len()
        invariant
            ctx.wf(rv, ls),
            rv == root@ && ls == listings@,
            mods == root@.modules,
            graph_edge(rv, dep@),
            dp == dep@.rules.deny_policies,
            lo matches Some(l) ==> exists|k: int| 0 <= k < ls.len() && #[trigger] ls[k] == l && listing_for(l, dep@),
            forall|x: int|
                0 <= x < allowed@.len() ==> candidate(lo, dp, #[trigger] allowed@[x]@) && allowed_by(
                    dep@.rules.allow_policies,
                    allowed@[x]@.package_path,
                ),
            mi < mods.len(),
            module == &root.modules@[mi as int],
            mods[mi as int].name == dep@.name,
            ctx.deny@.len() == deny0.len() + 1,
            ctx.deny@.take(deny0.len() as int) == deny0,
            ctx.active@ == old(ctx).active@,
            ctx.additional@ == old(ctx).additional@,
            ctx.unresolved@ == old(ctx).unresolved@,
            ctx.prunes@.len() == old(ctx).prunes@.len(),
            i <= allowed@.len(),
            ctx.deny@ == deny1,
            plan0 == mapping_views(old(ctx).plan@),
            plan_extends(plan0, mapping_views(ctx.plan@)),
            forall|y: int| 0 <= y < i ==> covered(mapping_views(ctx.plan@), #[trigger] allowed@[y]@),
            waiting_kept(old(ctx).prunes@, ctx.prunes@, mapping_views(ctx.plan@)),
            forall|p: int|
                plan0.len() <= p < mapping_views(ctx.plan@).len() ==> allowed_copy(
                    rv,
                    ls,
                    #[trigger] mapping_views(ctx.plan@)[p],
                ),
        decreases allowed.len() - i,
    {
        let ghost p1 = mapping_views(ctx.plan@);
        let ghost pr1 = ctx.prunes@;
        let m = mapping_of(&allowed[i], module);
        proof {
            assert(mods[mi as int] == module@);
            lemma_traced(rv, ls, dep@, lo, allowed@[i as int]@, mi as int, m@);
            assert(allowed_copy(rv, ls, m@));
        }
        ctx.add_mapping(m, Ghost(rv), Ghost(ls));
        proof {
            let p2 = mapping_views(ctx.plan@);
            assert forall|p: int| plan0.len() <= p < p2.len() implies allowed_copy(rv, ls, #[trigger] p2[p]) by {
                if p < p1.len() {
                    assert(p2[p] == p1[p]);
                } else {
                    assert(p2[p] == m@);
                }
            }
            lemma_waiting_trans(old(ctx).prunes@, pr1, ctx.prunes@, p1, mapping_views(ctx.plan@));
            assert forall|y: int| 0 <= y < i + 1 implies covered(mapping_views(ctx.plan@), #[trigger] allowed@[y]@) by {
                if y < i {
                    lemma_covered_kept(p1, mapping_views(ctx.plan@), allowed@[y]@);
                }
            }
        }
        i = i + 1;
    }
    proof {
        let pf = mapping_views(ctx.plan@);
        let outer = deny_views(deny0);
        assert forall|k: int, j: int|
            first_listing_for(ls, dep@, k) && 0 <= j < ls[k].sources@.len() && !denied_by(
                dep@.rules.deny_policies,
                ls[k].sources@[j]@.package_path,
            ) && !denied_by_any(outer, ls[k].sources@[j]@.package_path) && allowed_by(
                dep@.rules.allow_policies,
                ls[k].sources@[j]@.package_path,
            ) implies covered(pf, #[trigger] ls[k].sources@[j]@) by {
            let src = ls[k].sources@[j]@;
            assert(listing is Some);
            let l = *listing.unwrap();
            let k2 = choose|k2: int| 0 <= k2 < ls.len() && #[trigger] ls[k2] == l && first_listing_for(ls, dep@, k2);
            if k2 < k {
                assert(!listing_for(ls[k2], dep@));
            } else if k < k2 {
                assert(!listing_for(ls[k], dep@));
            }
            assert(l.sources@[j]@ == src);
            assert forall|q: int| 0 <= q < deny1.len() implies !denied_by(
                #[trigger] deny1[q].policies(),
                l.sources@[j]@.package_path,
            ) by {
                if q < deny0.len() {
                    assert(deny1[q] == deny0[q]);
                    assert(outer[q] == deny0[q].policies());
                    assert(!denied_by(outer[q], src.package_path));
                } else {
                    assert(q == deny1.len() - 1);
                }
            }
            let x = choose|x: int| 0 <= x < protos@.len() && #[trigger] protos@[x]@ == l.sources@[j]@;
            let y = choose|y: int| 0 <= y < allowed@.len() && #[trigger] allowed@[y]@ == protos@[x]@;
            assert(covered(pf, allowed@[y]@));
        }
        if deny0.len() == 0 {
            assert(outer =~= seq![]);
            lemma_edge_files_under_none(ls, dep@, pf);
        }
    }
    ctx.deny.pop();
    assert(ctx.deny@ =~= deny0);
}

/// Plans the copy of the files of a dependency that is pruned, or met while another
/// is: starting from the files still to find, each one found among the candidates is
/// copied and the files it imports are looked for in turn. For a pruned dependency the
/// candidates are all files not denied, and the files still to find start from the
/// allowed ones (those the enclosing pruned dependency still looks for, if any); its
/// pruning context is returned. Also says whether some file was copied. For a pruned
/// dependency, every import of each file copied is planned or still to find in the
/// returned context; when no other pruning is in force, so is every file its policies
/// let through, and when nothing was copied no file passes its policies. Every file
/// copied for a pruned dependency is one of its files reached from those its allow
/// policies let through, each through the imports of files found before it.
#[verifier::rlimit(80)]
#[verifier::spinoff_prover]
fn plan_pruning(
    root: &ResolvedRootModule,
    listings: &Vec<SourceListing>,
    imports: &Vec<FileImports>,
    ctx: &mut Context,
    dep: &ResolvedDependency,
) -> (r: (Option<PruneContext>, bool))
    requires
        old(ctx).wf(root@, listings@),
        is_resolved(root@.modules, dep@.name),
        graph_edge(root@, dep@),
        dep.rules.prune || old(ctx).prunes@.len() > 0,
    ensures
        final(ctx).unresolved@ == old(ctx).unresolved@,
        final(ctx).wf(root@, listings@),
        final(ctx).deny@ == old(ctx).deny@,
        final(ctx).active@ == old(ctx).active@,
        final(ctx).additional@ == old(ctx).additional@,
        final(ctx).prunes@.len() == old(ctx).prunes@.len(),
        r.0 is Some <==> dep.rules.prune,
        r.0 matches Some(p) ==> p.root < root@.modules.len() && root@.modules[p.root as int].name == dep@.name,
        plan_extends(mapping_views(old(ctx).plan@), mapping_views(final(ctx).plan@)),
        !r.1 ==> mapping_views(final(ctx).plan@) == mapping_views(old(ctx).plan@),
        r.1 ==> exists|s: SourceView| #[trigger] edge_source(root@, listings@, dep@, s) && covered(mapping_views(final(ctx).plan@), s),
        waiting_kept(old(ctx).prunes@, final(ctx).prunes@, mapping_views(final(ctx).plan@)),
        old(ctx).prunes@.len() == 0 && dep.rules.prune && !r.1 ==> forall|k: int, j: int|
            !#[trigger] lets_through(listings@, dep@, deny_views(old(ctx).deny@), k, j),
        r.0 matches Some(p) ==> imports_accounted(
            imports@,
            mapping_views(final(ctx).plan@),
            mapping_views(old(ctx).plan@).len() as int,
            crate::text::views(p.remaining@),
        ),
        old(ctx).prunes@.len() == 0 ==> (r.0 matches Some(p) ==> pruned_roots_accounted(
            listings@,
            dep@,
            mapping_views(final(ctx).plan@),
            deny_views(old(ctx).deny@),
            crate::text::views(p.remaining@),
        )),
        dep.rules.prune ==> exists|chain: Seq<SourceView>|
            import_chain(root@, listings@, imports@, dep@, chain) && forall|p: int|
                mapping_views(old(ctx).plan@).len() <= p < mapping_views(final(ctx).plan@).len() ==> copied_from(
                    chain,
                    dep@.name,
                    #[trigger] mapping_views(final(ctx).plan@)[p],
                ),
        copies_justified(
            root@,
            listings@,
            imports@,
            mapping_views(final(ctx).plan@),
            mapping_views(old(ctx).plan@).len() as int,
        ),
{
    let ghost plan0 = mapping_views(ctx.plan@);
    let ghost mods = root@.modules;
    let ghost rv = root@;
    let ghost ls = listings@;
    let ghost deny0 = ctx.deny@;
    ctx.deny.push(dep.rules.deny_policies.duplicate());
    let mi = module_index(root, &dep.name);
    let module = &root.modules[mi];
    let listing = find_listing(listings, dep);
    let ghost lo = found(listing);
    let ghost dp = dep@.rules.deny_policies;
    let ghost deny1 = ctx.deny@;
    assert(deny1.last().policies() == dp);
    let protos = not_denied_sources(ctx, listing);
    let allowed = allowed_sources(&protos, dep, Ghost(lo), Ghost(dp));
    let ghost protos_v = protos@;
    let ghost allowed_v = allowed@;
    let mut allowed_paths: Vec<String> = Vec::new();
    let mut i: usize = 0;
    while i < allowed.len()
        invariant
            i <= allowed.len(),
            forall|y: int| 0 <= y < i ==> path_in(crate::text::views(allowed_paths@), #[trigger] allowed@[y]@.package_path),
            rv == root@ && ls == listings@,
            mods == root@.modules,
            mi < mods.len(),
            mods[mi as int].name == dep@.name,
            graph_edge(rv, dep@),
            lo matches Some(l) ==> exists|k: int| 0 <= k < ls.len() && #[trigger] ls[k] == l && listing_for(l, dep@),
            forall|x: int|
                0 <= x < allowed@.len() ==> candidate(lo, dp, #[trigger] allowed@[x]@) && allowed_by(
                    dep@.rules.allow_policies,
                    allowed@[x]@.package_path,
                ),
            dp == dep@.rules.deny_policies,
            forall|w: int|
                0 <= w < allowed_paths@.len() ==> allowed_path(rv, ls, dep@, #[trigger] allowed_paths@[w]@),
        decreases allowed.len() - i,
    {
        let ghost before = allowed_paths@;
        path_set_insert(&mut allowed_paths, allowed[i].package_path.as_str());
        proof {
            let src = allowed@[i as int]@;
            lemma_traced(
                rv,
                ls,
                dep@,
                lo,
                src,
                mi as int,
                MappingView { source: src, module: dep@.name, coordinate: mods[mi as int].coordinate },
            );
            assert(allowed_path(rv, ls, dep@, src.package_path));
            assert forall|w: int| 0 <= w < allowed_paths@.len() implies allowed_path(rv, ls, dep@, #[trigger] allowed_paths@[w]@) by {
                if w < before.len() {
                    assert(allowed_paths@[w] == before[w]);
                }
            }
        }
        proof {
            assert forall|y: int| 0 <= y < i + 1 implies path_in(crate::text::views(allowed_paths@), #[trigger] allowed@[y]@.package_path) by {
                if y < i {
                    let w = choose|w: int| 0 <= w < crate::text::views(before).len() && same_path(#[trigger] crate::text::views(before)[w], allowed@[y]@.package_path);
                    if allowed_paths@ != before {
                        assert(crate::text::views(allowed_paths@)[w] == crate::text::views(before)[w]);
                    }
                } else {
                    if allowed_paths@ == before {
                        let w = choose|w: int| 0 <= w < before.len() && same_path(#[trigger] before[w]@, allowed@[i as int]@.package_path);
                        assert(crate::text::views(allowed_paths@)[w] == before[w]@);
                    } else {
                        let n = before.len() as int;
                        assert(crate::text::views(allowed_paths@)[n] == allowed@[i as int]@.package_path);
                    }
                }
            }
        }
        i = i + 1;
    }
    let ghost allowed_paths_v = crate::text::views(allowed_paths@);
    let local_roots: Vec<String> = if ctx.prunes.len() == 0 {
        allowed_paths
    } else {
        let top = ctx.prunes.len() - 1;
        let mut kept: Vec<String> = Vec::new();
        let mut k: usize = 0;
        while k < allowed_paths.len()
            invariant
                top < ctx.prunes@.len(),
                forall|w: int|
                    0 <= w < allowed_paths@.len() ==> allowed_path(rv, ls, dep@, #[trigger] allowed_paths@[w]@),
                forall|w: int| 0 <= w < kept@.len() ==> allowed_path(rv, ls, dep@, #[trigger] kept@[w]@),
            decreases allowed_paths.len() - k,
        {
            if path_set_contains(&ctx.prunes[top].remaining, allowed_paths[k].as_str()) {
                let ghost before = kept@;
                kept.push(allowed_paths[k].clone());
                proof {
                    assert(allowed_path(rv, ls, dep@, allowed_paths@[k as int]@));
                    assert forall|w: int| 0 <= w < kept@.len() implies allowed_path(rv, ls, dep@, #[trigger] kept@[w]@) by {
                        if w < before.len() {
                            assert(kept@[w] == before[w]);
                        }
                    }
                }
            }
            k = k + 1;
        }
        kept
    };
    let ghost lr = local_roots@;
    assert(forall|w: int| 0 <= w < lr.len() ==> allowed_path(rv, ls, dep@, #[trigger] lr[w]@));
    let pruned = dep.rules.prune;
    let candidates0 = if pruned {
        protos
    } else {
        allowed
    };
    let ghost cands_in = candidates0@;
    let mut candidates = by_package_path(candidates0, Ghost(lo), Ghost(dp));
    let ghost cand0 = candidates@;
    proof {
        if !pruned {
            assert forall|x: int| 0 <= x < candidates@.len() implies allowed_by(
                dep@.rules.allow_policies,
                #[trigger] candidates@[x]@.package_path,
            ) by {
                let k = choose|k: int| #![trigger cands_in[k]] 0 <= k < cands_in.len() && candidates@[x]@ == cands_in[k]@ && last_of_path(cands_in, k, cands_in.len() as int);
                assert(cands_in[k] == allowed_v[k]);
            }
        }
    }
    let prunes0 = ctx.prunes.len();
    if pruned {
        assert(graph_edge(rv, dep@) && dep@.rules.prune);
        ctx.prunes.push(PruneContext { root: mi, remaining: local_roots, seen: Vec::new() });
    }
    proof {
        lemma_waiting_one_grows(old(ctx).prunes@, ctx.prunes@, -1, mapping_views(ctx.plan@));
    }
    let top = ctx.prunes.len() - 1;
    let mut queue: Vec<String> = crate::text::clone_strings(ctx.prunes[top].remaining.as_slice());
    let ghost roots0 = crate::text::views(ctx.prunes@[top as int].remaining@);
    let ghost mut chain: Seq<SourceView> = Seq::empty();
    proof {
        if pruned {
            assert(crate::text::views(ctx.prunes@[top as int].seen@) =~= Seq::<Seq<char>>::empty());
            assert(crate::text::views(queue@) == roots0);
            assert(ctx.prunes@[top as int].remaining@ == lr);
            assert(roots0 == crate::text::views(lr));
            assert(crate::text::views(queue@) == crate::text::views(lr));
            assert forall|x: int| 0 <= x < queue@.len() implies reached_path(rv, ls, imports@, dep@, chain, #[trigger] queue@[x]@) by {
                assert(crate::text::views(queue@).len() == queue@.len());
                assert(crate::text::views(lr).len() == lr.len());
                assert(crate::text::views(queue@)[x] == queue@[x]@);
                assert(crate::text::views(lr)[x] == lr[x]@);
                assert(allowed_path(rv, ls, dep@, lr[x]@));
            }
        }
    }
    let mut copied = false;
    let ghost qi = crate::text::views(queue@);
    let ghost mut c: int = 0;
    assert(qi.skip(0) =~= qi);
    while queue.len() > 0
        invariant
            ctx.wf(rv, ls),
            rv == root@ && ls == listings@,
            mods == root@.modules,
            mi < mods.len(),
            module == &root.modules@[mi as int],
            mods[mi as int].name == dep@.name,
            graph_edge(rv, dep@),
            dp == dep@.rules.deny_policies,
            lo matches Some(l) ==> exists|k: int| 0 <= k < ls.len() && #[trigger] ls[k] == l && listing_for(l, dep@),
            forall|x: int| 0 <= x < candidates@.len() ==> candidate(lo, dp, #[trigger] candidates@[x]@),
            ctx.deny@.len() == deny0.len() + 1,
            ctx.deny@.take(deny0.len() as int) == deny0,
            ctx.active@ == old(ctx).active@,
            ctx.additional@ == old(ctx).additional@,
            ctx.unresolved@ == old(ctx).unresolved@,
            ctx.prunes@.len() == if pruned { prunes0 + 1 } else { prunes0 as int },
            top + 1 == ctx.prunes@.len(),
            plan0 == mapping_views(old(ctx).plan@),
            plan_extends(plan0, mapping_views(ctx.plan@)),
            !copied ==> mapping_views(ctx.plan@) == plan0,
            copied ==> exists|s: SourceView| #[trigger] edge_source(rv, ls, dep@, s) && covered(mapping_views(ctx.plan@), s),
            pruned == dep.rules.prune,
            pruned ==> ctx.prunes@[top as int].root == mi,
            pruned ==> forall|q: Seq<char>| #[trigger] path_in(crate::text::views(queue@), q) ==> found_or_waiting(
                mapping_views(ctx.plan@),
                crate::text::views(ctx.prunes@[top as int].remaining@),
                q,
            ),
            pruned ==> forall|q: Seq<char>| #[trigger] path_in(crate::text::views(ctx.prunes@[top as int].seen@), q) ==> path_planned(
                mapping_views(ctx.plan@),
                q,
            ),
            pruned ==> forall|q: Seq<char>| #[trigger] path_in(roots0, q) ==> found_or_waiting(
                mapping_views(ctx.plan@),
                crate::text::views(ctx.prunes@[top as int].remaining@),
                q,
            ),
            pruned ==> imports_accounted(
                imports@,
                mapping_views(ctx.plan@),
                plan0.len() as int,
                crate::text::views(ctx.prunes@[top as int].remaining@),
            ),
            old(ctx).prunes@.len() == prunes0,
            waiting_kept(old(ctx).prunes@, ctx.prunes@, mapping_views(ctx.plan@)),
            pruned ==> import_chain(rv, ls, imports@, dep@, chain),
            !pruned ==> forall|x: int|
                0 <= x < candidates@.len() ==> allowed_by(
                    dep@.rules.allow_policies,
                    #[trigger] candidates@[x]@.package_path,
                ),
            !pruned ==> forall|p: int|
                plan0.len() <= p < mapping_views(ctx.plan@).len() ==> allowed_copy(
                    rv,
                    ls,
                    #[trigger] mapping_views(ctx.plan@)[p],
                ),
            pruned ==> forall|x: int|
                0 <= x < queue@.len() ==> reached_path(rv, ls, imports@, dep@, chain, #[trigger] queue@[x]@),
            pruned ==> forall|p: int|
                plan0.len() <= p < mapping_views(ctx.plan@).len() ==> copied_from(
                    chain,
                    dep@.name,
                    #[trigger] mapping_views(ctx.plan@)[p],
                ),
            !copied ==> candidates@ == cand0,
            !copied ==> 0 <= c <= qi.len() && crate::text::views(queue@) == qi.skip(c),
            !copied ==> forall|x: int, y: int|
                0 <= x < c && 0 <= y < cand0.len() ==> !same_path(#[trigger] cand0[y].package_path@, #[trigger] qi[x]),
        decreases candidates.len(), queue.len(),
    {
        let ghost queue0 = queue@;
        let needed = queue.remove(0);
        proof {
            if pruned {
                assert(reached_path(rv, ls, imports@, dep@, chain, queue0[0]@));
                assert forall|x: int| 0 <= x < queue@.len() implies reached_path(rv, ls, imports@, dep@, chain, #[trigger] queue@[x]@) by {
                    assert(queue@[x] == queue0[x + 1]);
                }
            }
        }
        proof {
            assert forall|q: Seq<char>| #[trigger] path_in(crate::text::views(queue@), q) implies path_in(crate::text::views(queue0), q) by {
                let w = choose|w: int| 0 <= w < crate::text::views(queue@).len() && same_path(#[trigger] crate::text::views(queue@)[w], q);
                assert(crate::text::views(queue0)[w + 1] == crate::text::views(queue@)[w]);
            }
        }
        proof {
            if !copied {
                let v0 = crate::text::views(queue0);
                assert(v0 == qi.skip(c));
                assert(v0[0] == queue0[0]@);
                assert(needed@ == qi[c]);
                assert(queue@ =~= queue0.subrange(1, queue0.len() as int));
                assert forall|x: int| 0 <= x < crate::text::views(queue@).len() implies #[trigger] crate::text::views(queue@)[x]
                    == qi.skip(c + 1)[x] by {
                    assert(crate::text::views(queue@)[x] == queue@[x]@);
                    assert(queue@[x] == queue0[x + 1]);
                    assert(v0[x + 1] == queue0[x + 1]@);
                    assert(qi.skip(c)[x + 1] == qi[c + x + 1]);
                }
                assert(crate::text::views(queue@) =~= qi.skip(c + 1));
            }
        }
        let ghost cb = candidates@;
        match take_candidate(&mut candidates, needed.as_str(), Ghost(lo), Ghost(dp)) {
            None => {
                proof {
                    if !copied {
                        assert forall|x: int, y: int|
                            0 <= x < c + 1 && 0 <= y < cand0.len() implies !same_path(#[trigger] cand0[y].package_path@, #[trigger] qi[x]) by {
                            if x == c {
                                assert(!same_path(candidates@[y].package_path@, needed@));
                            }
                        }
                        c = c + 1;
                    }
                }
            },
            Some(proto) => {
                let ghost p0 = mapping_views(ctx.plan@);
                proof {
                    if !pruned {
                        let kk = choose|kk: int|
                            0 <= kk < cb.len() && same_path(#[trigger] cb[kk].package_path@, needed@) && (forall|j: int|
                                0 <= j < kk ==> !same_path(#[trigger] cb[j].package_path@, needed@)) && proto == cb[kk]
                                && candidates@ == cb.remove(kk);
                        assert(allowed_by(dep@.rules.allow_policies, cb[kk]@.package_path));
                        assert forall|x: int| 0 <= x < candidates@.len() implies allowed_by(
                            dep@.rules.allow_policies,
                            #[trigger] candidates@[x]@.package_path,
                        ) by {
                            if x < kk {
                                assert(candidates@[x] == cb[x]);
                            } else {
                                assert(candidates@[x] == cb[x + 1]);
                            }
                        }
                    }
                }
                proof {
                    if pruned {
                        let chain0 = chain;
                        let kk = choose|kk: int|
                            0 <= kk < cb.len() && same_path(#[trigger] cb[kk].package_path@, needed@) && (forall|j: int|
                                0 <= j < kk ==> !same_path(#[trigger] cb[j].package_path@, needed@)) && proto == cb[kk]
                                && candidates@ == cb.remove(kk);
                        assert(same_path(needed@, proto@.package_path));
                        lemma_traced(
                            rv,
                            ls,
                            dep@,
                            lo,
                            proto@,
                            mi as int,
                            MappingView { source: proto@, module: dep@.name, coordinate: mods[mi as int].coordinate },
                        );
                        lemma_reached_same(rv, ls, imports@, dep@, chain0, needed@, proto@.package_path);
                        lemma_chain_push(rv, ls, imports@, dep@, chain0, proto@);
                        chain = chain0.push(proto@);
                        assert forall|x: int| 0 <= x < queue@.len() implies reached_path(rv, ls, imports@, dep@, chain, #[trigger] queue@[x]@) by {
                            lemma_reached_grows(rv, ls, imports@, dep@, chain0, proto@, queue@[x]@);
                        }
                        assert forall|p: int| plan0.len() <= p < p0.len() implies copied_from(chain, dep@.name, #[trigger] p0[p]) by {
                            let t = choose|t: int| 0 <= t < chain0.len() && #[trigger] chain0[t] == p0[p].source;
                            assert(chain[t] == chain0[t]);
                        }
                    }
                }
                copied = true;
                let fp = source_path(proto.worktree.as_str(), proto.content_root.as_str(), proto.package_path.as_str());
                let ghost seen_v = crate::text::views(ctx.prunes@[top as int].seen@);
                let found = imports_of(imports, fp.as_str());
                let ghost dv: Seq<Seq<char>> = match found {
                    Some(d) => crate::text::views(d@),
                    None => seq![],
                };
                match found {
                    None => {},
                    Some(deps) => {
                        proof {
                            if pruned {
                                let k0 = choose|k0: int|
                                    0 <= k0 < imports@.len() && same_path(#[trigger] imports@[k0].path@, fp@)
                                        && *deps == imports@[k0].imports && forall|j: int|
                                        0 <= j < k0 ==> !same_path(#[trigger] imports@[j].path@, fp@);
                                let last = chain.len() - 1;
                                assert(chain[last] == proto@);
                                assert(fp@ == full_path(chain[last]));
                                assert(imports_entry(imports@, full_path(chain[last]), k0));
                                assert forall|x: int| 0 <= x < dv.len() implies reached_path(rv, ls, imports@, dep@, chain, #[trigger] dv[x]) by {
                                    assert(dv[x] == imports@[k0].imports@[x]@);
                                    assert(imports_path(imports@, full_path(chain[last]), dv[x]));
                                }
                            }
                        }
                        let mut j: usize = 0;
                        while j < deps.len()
                            invariant
                                pruned ==> forall|x: int|
                                    0 <= x < queue@.len() ==> reached_path(rv, ls, imports@, dep@, chain, #[trigger] queue@[x]@),
                                pruned ==> forall|x: int|
                                    0 <= x < dv.len() ==> reached_path(rv, ls, imports@, dep@, chain, #[trigger] dv[x]),
                                ctx.wf(rv, ls),
                                rv == root@ && ls == listings@,
                                ctx.deny@.len() == deny0.len() + 1,
                                ctx.deny@.take(deny0.len() as int) == deny0,
                                ctx.active@ == old(ctx).active@,
                                ctx.additional@ == old(ctx).additional@,
                                ctx.unresolved@ == old(ctx).unresolved@,
                                ctx.prunes@.len() == if pruned { prunes0 + 1 } else { prunes0 as int },
                                top + 1 == ctx.prunes@.len(),
                                plan_extends(plan0, mapping_views(ctx.plan@)),
                                mapping_views(ctx.plan@) == p0,
                                pruned ==> ctx.prunes@[top as int].root == mi,
                                j <= deps.len(),
                                dv == crate::text::views(deps@),
                                crate::text::views(ctx.prunes@[top as int].seen@) == seen_v,
                                pruned ==> forall|q: Seq<char>| #[trigger] path_in(seen_v, q) ==> path_planned(p0, q),
                                pruned ==> forall|q: Seq<char>| #[trigger] path_in(crate::text::views(queue@), q) ==> found_or_waiting(
                                    p0,
                                    crate::text::views(ctx.prunes@[top as int].remaining@),
                                    q,
                                ),
                                pruned ==> forall|q: Seq<char>| #[trigger] path_in(roots0, q) ==> found_or_waiting(
                                    p0,
                                    crate::text::views(ctx.prunes@[top as int].remaining@),
                                    q,
                                ),
                                pruned ==> imports_accounted(
                                    imports@,
                                    p0,
                                    plan0.len() as int,
                                    crate::text::views(ctx.prunes@[top as int].remaining@),
                                ),
                                old(ctx).prunes@.len() == prunes0,
                                waiting_kept(old(ctx).prunes@, ctx.prunes@, p0),
                                pruned ==> forall|x: int| 0 <= x < j ==> found_or_waiting(
                                    p0,
                                    crate::text::views(ctx.prunes@[top as int].remaining@),
                                    #[trigger] dv[x],
                                ),
                            decreases deps.len() - j,
                        {
                            let ghost w0 = crate::text::views(ctx.prunes@[top as int].remaining@);
                            let ghost q0 = crate::text::views(queue@);
                            if !path_set_contains(&ctx.prunes[top].seen, deps[j].as_str()) {
                                let ghost qb = queue@;
                                queue.push(deps[j].clone());
                                proof {
                                    if pruned {
                                        assert(dv[j as int] == deps@[j as int]@);
                                        assert forall|x: int| 0 <= x < queue@.len() implies reached_path(rv, ls, imports@, dep@, chain, #[trigger] queue@[x]@) by {
                                            if x < qb.len() {
                                                assert(queue@[x] == qb[x]);
                                            } else {
                                                assert(queue@[x]@ == dv[j as int]);
                                            }
                                        }
                                    }
                                }
                                let ghost pr0 = ctx.prunes@;
                                let mut p = ctx.prunes.remove(top);
                                let ghost r0 = p.remaining@;
                                path_set_insert(&mut p.remaining, deps[j].as_str());
                                ctx.prunes.insert(top, p);
                                proof {
                                    assert forall|jj: int| 0 <= jj < pr0.len() && jj != top implies #[trigger] ctx.prunes@[jj] == pr0[jj] by {}
                                    let w1 = crate::text::views(ctx.prunes@[top as int].remaining@);
                                    let q1 = crate::text::views(queue@);
                                    assert(q1 =~= q0.push(dv[j as int]));
                                    assert(w0 == crate::text::views(r0));
                                    assert(dv[j as int] == deps@[j as int]@);
                                    if ctx.prunes@[top as int].remaining@ == r0 {
                                        let i = choose|i: int| 0 <= i < r0.len() && same_path(#[trigger] r0[i]@, deps@[j as int]@);
                                        assert(w0[i] == r0[i]@);
                                        assert(path_in(w0, dv[j as int]));
                                    } else {
                                        assert(w1 =~= w0.push(dv[j as int]));
                                    }
                                    lemma_waiting_grows(w0, w1, dv[j as int]);
                                    lemma_waiting_one_grows(pr0, ctx.prunes@, top as int, p0);
                                    lemma_waiting_trans(old(ctx).prunes@, pr0, ctx.prunes@, p0, p0);
                                    if pruned {
                                        assert forall|q: Seq<char>| #[trigger] path_in(q1, q) implies found_or_waiting(p0, w1, q) by {
                                            let w = choose|w: int| 0 <= w < q1.len() && same_path(#[trigger] q1[w], q);
                                            if w < q0.len() {
                                                assert(q1[w] == q0[w]);
                                                assert(path_in(q0, q));
                                            } else {
                                                assert(path_in(w1, dv[j as int]));
                                                lemma_path_in_same(w1, dv[j as int], q);
                                            }
                                        }
                                        assert forall|x: int| 0 <= x < j + 1 implies found_or_waiting(p0, w1, #[trigger] dv[x]) by {}
                                        lemma_imports_waiting_grows(imports@, p0, plan0.len() as int, w0, w1);
                                    }
                                }
                            } else {
                                proof {
                                    if pruned {
                                        let sv = ctx.prunes@[top as int].seen@;
                                        let i = choose|i: int| 0 <= i < sv.len() && same_path(#[trigger] sv[i]@, deps@[j as int]@);
                                        assert(seen_v[i] == sv[i]@);
                                        assert(dv[j as int] == deps@[j as int]@);
                                        assert(path_in(seen_v, dv[j as int]));
                                    }
                                }
                            }
                            j = j + 1;
                        }
                    },
                }
                let m = mapping_of(&proto, module);
                proof {
                    assert(mods[mi as int] == module@);
                    lemma_traced(rv, ls, dep@, lo, proto@, mi as int, m@);
                    if pruned {
                        assert(graph_edge(rv, dep@) && dep@.rules.prune);
                    }
                    assert(has_pruned_edge(rv));
                }
                let ghost p1 = mapping_views(ctx.plan@);
                let ghost w1 = crate::text::views(ctx.prunes@[top as int].remaining@);
                let ghost before_prunes = ctx.prunes@;
                ctx.add_mapping(m, Ghost(rv), Ghost(ls));
                proof {
                    if !pruned {
                        let p2 = mapping_views(ctx.plan@);
                        assert(p1 == p0);
                        assert(allowed_copy(rv, ls, m@));
                        assert forall|p: int| plan0.len() <= p < p2.len() implies allowed_copy(rv, ls, #[trigger] p2[p]) by {
                            if p < p1.len() {
                                assert(p2[p] == p1[p]);
                            } else {
                                assert(p2[p] == m@);
                            }
                        }
                    }
                    if pruned {
                        let p2 = mapping_views(ctx.plan@);
                        assert(p1 == p0);
                        assert(chain[chain.len() - 1] == proto@);
                        assert(m@.source == proto@ && m@.module == dep@.name);
                        assert forall|p: int| plan0.len() <= p < p2.len() implies copied_from(chain, dep@.name, #[trigger] p2[p]) by {
                            if p < p1.len() {
                                assert(p2[p] == p1[p]);
                                assert(copied_from(chain, dep@.name, p1[p]));
                            } else {
                                assert(p2[p] == m@);
                                assert(chain[chain.len() - 1] == p2[p].source);
                            }
                        }
                    }
                }
                proof {
                    lemma_waiting_trans(old(ctx).prunes@, before_prunes, ctx.prunes@, p1, mapping_views(ctx.plan@));
                    lemma_extends_trans(plan0, p1, mapping_views(ctx.plan@));
                    assert(edge_source(rv, ls, dep@, proto@) && covered(mapping_views(ctx.plan@), proto@));
                    if pruned {
                        let p2 = mapping_views(ctx.plan@);
                        let w2 = crate::text::views(ctx.prunes@[top as int].remaining@);
                        assert forall|q: Seq<char>| path_in(w1, q) implies found_or_waiting(p2, w2, q) by {
                            assert(path_in(crate::text::views(before_prunes[top as int].remaining@), q));
                        }
                        lemma_waiting_moves(p1, w1, p2, w2);
                        lemma_imports_moves(imports@, p1, plan0.len() as int, w1, p2, w2);
                        if p2.len() > p1.len() {
                            assert(p2 == p1.push(m@));
                            assert(full_path(m@.source) == fp@);
                            assert forall|k: int, x: int|
                                imports_entry(imports@, full_path(p2[p1.len() as int].source), k) && 0 <= x
                                    < imports@[k].imports@.len() implies found_or_waiting(
                                p2,
                                w2,
                                imports@[k].imports@[x]@,
                            ) by {
                                assert(found is Some);
                                let k0 = choose|k0: int|
                                    0 <= k0 < imports@.len() && same_path(#[trigger] imports@[k0].path@, fp@)
                                        && *found->0 == imports@[k0].imports && forall|j: int|
                                        0 <= j < k0 ==> !same_path(#[trigger] imports@[j].path@, fp@);
                                if k < k0 {
                                    assert(!same_path(imports@[k].path@, fp@));
                                } else if k0 < k {
                                    assert(!same_path(imports@[k0].path@, fp@));
                                }
                                assert(dv[x] == imports@[k].imports@[x]@);
                                assert(found_or_waiting(p1, w1, dv[x]));
                            }
                            lemma_imports_new_entry(imports@, p2, plan0.len() as int, w2);
                        }
                        assert forall|q: Seq<char>| #[trigger] path_in(crate::text::views(queue@), q) implies found_or_waiting(p2, w2, q) by {
                            assert(found_or_waiting(p1, w1, q));
                        }
                        assert forall|q: Seq<char>| #[trigger] path_in(roots0, q) implies found_or_waiting(p2, w2, q) by {
                            assert(found_or_waiting(p1, w1, q));
                        }
                        assert forall|q: Seq<char>| #[trigger] path_in(crate::text::views(ctx.prunes@[top as int].seen@), q) implies path_planned(p2, q) by {
                            if path_in(crate::text::views(before_prunes[top as int].seen@), q) {
                                assert(path_planned(p1, q));
                                lemma_planned_kept(p1, p2, q);
                            }
                        }
                    }
                }
            },
        }
    }
    let ghost pr_end = ctx.prunes@;
    let child = if pruned {
        ctx.prunes.pop()
    } else {
        None
    };
    proof {
        lemma_waiting_prefix(old(ctx).prunes@, pr_end, ctx.prunes@, mapping_views(ctx.plan@));
    }
    proof {
        if pruned && prunes0 == 0 && !copied {
            assert(qi.skip(c).len() == 0);
            assert(c == qi.len());
            assert(qi == roots0);
            assert(roots0 == allowed_paths_v);
            let outer = deny_views(deny0);
            assert forall|k: int, j: int| !#[trigger] lets_through(listings@, dep@, outer, k, j) by {
                if lets_through(listings@, dep@, outer, k, j) {
                    let src = ls[k].sources@[j]@;
                    assert(listing is Some);
                    let l = *listing.unwrap();
                    let k2 = choose|k2: int| 0 <= k2 < ls.len() && #[trigger] ls[k2] == l && first_listing_for(ls, dep@, k2);
                    if k2 < k {
                        assert(!listing_for(ls[k2], dep@));
                    } else if k < k2 {
                        assert(!listing_for(ls[k], dep@));
                    }
                    assert(l.sources@[j]@ == src);
                    assert forall|q: int| 0 <= q < deny1.len() implies !denied_by(
                        #[trigger] deny1[q].policies(),
                        l.sources@[j]@.package_path,
                    ) by {
                        if q < deny0.len() {
                            assert(deny1[q] == deny0[q]);
                            assert(outer[q] == deny0[q].policies());
                            assert(!denied_by(outer[q], src.package_path));
                        } else {
                            assert(q == deny1.len() - 1);
                        }
                    }
                    let x = choose|x: int| 0 <= x < protos_v.len() && #[trigger] protos_v[x]@ == l.sources@[j]@;
                    let y = choose|y: int| 0 <= y < allowed_v.len() && #[trigger] allowed_v[y]@ == protos_v[x]@;
                    assert(path_in(allowed_paths_v, allowed_v[y]@.package_path));
                    let w = choose|w: int| 0 <= w < qi.len() && same_path(#[trigger] qi[w], src.package_path);
                    assert(cands_in == protos_v);
                    assert(cands_in[x] == protos_v[x]);
                    let z = choose|z: int| #![trigger cand0[z]] 0 <= z < cand0.len() && same_path(cand0[z].package_path@, cands_in[x].package_path@);
                    assert(!same_path(cand0[z].package_path@, qi[w]));
                    assert(false);
                }
            }
        }
    }
    proof {
        if pruned && prunes0 == 0 {
            let pf = mapping_views(ctx.plan@);
            let wf = crate::text::views(child->0.remaining@);
            let outer = deny_views(deny0);
            assert(roots0 == allowed_paths_v);
            assert forall|k: int, j: int| #[trigger] lets_through(ls, dep@, outer, k, j) implies found_or_waiting(
                pf,
                wf,
                ls[k].sources@[j]@.package_path,
            ) by {
                let src = ls[k].sources@[j]@;
                assert(listing is Some);
                let l = *listing.unwrap();
                let k2 = choose|k2: int| 0 <= k2 < ls.len() && #[trigger] ls[k2] == l && first_listing_for(ls, dep@, k2);
                if k2 < k {
                    assert(!listing_for(ls[k2], dep@));
                } else if k < k2 {
                    assert(!listing_for(ls[k], dep@));
                }
                assert(l.sources@[j]@ == src);
                assert forall|q: int| 0 <= q < deny1.len() implies !denied_by(
                    #[trigger] deny1[q].policies(),
                    l.sources@[j]@.package_path,
                ) by {
                    if q < deny0.len() {
                        assert(deny1[q] == deny0[q]);
                        assert(outer[q] == deny0[q].policies());
                        assert(!denied_by(outer[q], src.package_path));
                    } else {
                        assert(q == deny1.len() - 1);
                    }
                }
                let x = choose|x: int| 0 <= x < protos_v.len() && #[trigger] protos_v[x]@ == l.sources@[j]@;
                let y = choose|y: int| 0 <= y < allowed_v.len() && #[trigger] allowed_v[y]@ == protos_v[x]@;
                assert(path_in(allowed_paths_v, allowed_v[y]@.package_path));
                assert(path_in(roots0, src.package_path));
            }
        }
    }
    ctx.deny.pop();
    assert(ctx.deny@ =~= deny0);
    proof {
        let pf = mapping_views(ctx.plan@);
        if pruned {
            assert(import_chain(rv, ls, imports@, dep@, chain));
            assert forall|k: int| plan0.len() <= k < pf.len() implies allowed_copy(rv, ls, #[trigger] pf[k]) || pruned_copy(
                rv,
                ls,
                imports@,
                pf[k],
            ) by {
                assert(copied_from(chain, dep@.name, pf[k]));
                assert(graph_edge(rv, dep@) && dep@.rules.prune);
            }
        }
    }
    (child, copied)
}


/// Some import reported unresolved names the path.
spec fn reported(unresolved: Seq<(usize, String)>, q: Seq<char>) -> bool {
    exists|k: int| 0 <= k < unresolved.len() && same_path(#[trigger] unresolved[k].1@, q)
}

/// The reports of `a` are kept, in order, at the start of `b`.
spec fn reports_kept(a: Seq<(usize, String)>, b: Seq<(usize, String)>) -> bool {
    a.len() <= b.len() && forall|i: int| 0 <= i < a.len() ==> #[trigger] b[i] == a[i]
}

proof fn lemma_reported_kept(a: Seq<(usize, String)>, b: Seq<(usize, String)>, q: Seq<char>)
    requires
        reports_kept(a, b),
        reported(a, q),
    ensures
        reported(b, q),
{
    let k = choose|k: int| 0 <= k < a.len() && same_path(#[trigger] a[k].1@, q);
    assert(b[k] == a[k]);
}

proof fn lemma_reports_trans(a: Seq<(usize, String)>, b: Seq<(usize, String)>, c: Seq<(usize, String)>)
    requires
        reports_kept(a, b),
        reports_kept(b, c),
    ensures
        reports_kept(a, c),
{
    assert forall|i: int| 0 <= i < a.len() implies #[trigger] c[i] == a[i] by {
        assert(c[i] == b[i]);
    }
}

/// Every file that a pruned dependency's policies let through is planned, or reported
/// unresolved.
spec fn pruned_files_reached(
    listings: Seq<SourceListing>,
    e: EdgeView,
    plan: Seq<MappingView>,
    unresolved: Seq<(usize, String)>,
) -> bool {
    forall|k: int, j: int|
        #[trigger] lets_through(listings, e, seq![], k, j) ==> path_planned(plan, listings[k].sources@[j]@.package_path)
            || reported(unresolved, listings[k].sources@[j]@.package_path)
}

/// A task still to plan prunes with a context in which every file that a pruned
/// dependency's policies let through is planned, or waits.
spec fn pending_in_task(listings: Seq<SourceListing>, e: EdgeView, plan: Seq<MappingView>, tasks: Seq<Task>) -> bool {
    exists|t: int|
        0 <= t < tasks.len() && (#[trigger] tasks[t].prune matches Some(p) && pruned_roots_accounted(
            listings,
            e,
            plan,
            seq![],
            crate::text::views(p.remaining@),
        ))
}

proof fn lemma_reached_kept(
    listings: Seq<SourceListing>,
    e: EdgeView,
    p1: Seq<MappingView>,
    u1: Seq<(usize, String)>,
    p2: Seq<MappingView>,
    u2: Seq<(usize, String)>,
)
    requires
        pruned_files_reached(listings, e, p1, u1),
        plan_extends(p1, p2),
        reports_kept(u1, u2),
    ensures
        pruned_files_reached(listings, e, p2, u2),
{
    assert forall|k: int, j: int| #[trigger] lets_through(listings, e, seq![], k, j) implies path_planned(
        p2,
        listings[k].sources@[j]@.package_path,
    ) || reported(u2, listings[k].sources@[j]@.package_path) by {
        let q = listings[k].sources@[j]@.package_path;
        if path_planned(p1, q) {
            lemma_planned_kept(p1, p2, q);
        } else {
            lemma_reported_kept(u1, u2, q);
        }
    }
}

proof fn lemma_roots_plan_kept(
    listings: Seq<SourceListing>,
    e: EdgeView,
    p1: Seq<MappingView>,
    p2: Seq<MappingView>,
    w: Seq<Seq<char>>,
)
    requires
        pruned_roots_accounted(listings, e, p1, seq![], w),
        plan_extends(p1, p2),
    ensures
        pruned_roots_accounted(listings, e, p2, seq![], w),
{
    assert forall|k: int, j: int| #[trigger] lets_through(listings, e, seq![], k, j) implies found_or_waiting(
        p2,
        w,
        listings[k].sources@[j]@.package_path,
    ) by {
        let q = listings[k].sources@[j]@.package_path;
        if path_planned(p1, q) {
            lemma_planned_kept(p1, p2, q);
        }
    }
}

/// A task's waiting files, once its children are planned, are planned or reported.
proof fn lemma_roots_settled(
    listings: Seq<SourceListing>,
    e: EdgeView,
    p1: Seq<MappingView>,
    w: Seq<Seq<char>>,
    p2: Seq<MappingView>,
    u2: Seq<(usize, String)>,
)
    requires
        pruned_roots_accounted(listings, e, p1, seq![], w),
        plan_extends(p1, p2),
        forall|q: Seq<char>| #[trigger] path_in(w, q) ==> path_planned(p2, q) || reported(u2, q),
    ensures
        pruned_files_reached(listings, e, p2, u2),
{
    assert forall|k: int, j: int| #[trigger] lets_through(listings, e, seq![], k, j) implies path_planned(
        p2,
        listings[k].sources@[j]@.package_path,
    ) || reported(u2, listings[k].sources@[j]@.package_path) by {
        let q = listings[k].sources@[j]@.package_path;
        assert(found_or_waiting(p1, w, q));
        if path_planned(p1, q) {
            lemma_planned_kept(p1, p2, q);
        }
    }
}

/// The module at `i` is the first one with a name.
pub open spec fn first_module_named(mods: Seq<ModuleView>, name: Seq<char>, i: int) -> bool {
    &&& 0 <= i < mods.len()
    &&& mods[i].name == name
    &&& forall|k: int| 0 <= k < i ==> #[trigger] mods[k].name != name
}

/// A dependency whose children are still to plan.
struct Task {
    dep: ResolvedDependency,
    prune: Option<PruneContext>,
    include_additional: bool,
}

/// A task for edge `e` without pruning is still to do.
spec fn task_for(tasks: Seq<Task>, e: EdgeView) -> bool {
    exists|t: int|
        0 <= t < tasks.len() && #[trigger] tasks[t].dep@ == e && tasks[t].prune is None && !tasks[t].include_additional
}

/// Below edge `e`, taken with the edges `active` already being planned and the deny
/// policies `outer` in force, the module it leads to is covered at every depth.
spec fn subtree_done(
    root: super::RootView,
    listings: Seq<SourceListing>,
    plan: Seq<MappingView>,
    active: Seq<EdgeView>,
    outer: Seq<Seq<(PolicyKind, Seq<char>)>>,
    e: EdgeView,
) -> bool {
    forall|i: int, depth: nat|
        first_module_named(root.modules, e.name, i) ==> #[trigger] tree_covered(
            root,
            listings,
            plan,
            active.push(e),
            outer.push(e.rules.deny_policies),
            root.modules[i].dependencies,
            depth,
        )
}

proof fn lemma_subtree_kept(
    root: super::RootView,
    listings: Seq<SourceListing>,
    p1: Seq<MappingView>,
    p2: Seq<MappingView>,
    active: Seq<EdgeView>,
    outer: Seq<Seq<(PolicyKind, Seq<char>)>>,
    e: EdgeView,
)
    requires
        subtree_done(root, listings, p1, active, outer, e),
        plan_extends(p1, p2),
    ensures
        subtree_done(root, listings, p2, active, outer, e),
{
    assert forall|i: int, depth: nat| first_module_named(root.modules, e.name, i) implies #[trigger] tree_covered(
        root,
        listings,
        p2,
        active.push(e),
        outer.push(e.rules.deny_policies),
        root.modules[i].dependencies,
        depth,
    ) by {
        lemma_tree_kept(
            root,
            listings,
            p1,
            p2,
            active.push(e),
            outer.push(e.rules.deny_policies),
            root.modules[i].dependencies,
            depth,
        );
    }
}

/// Plans the copies for some dependencies, then for the dependencies of each one
/// planned, depth first. A transitive dependency is planned only while pruning; a
/// dependency already being planned is skipped (a cycle), unless it is one of the
/// transitive dependencies made available while pruning.
#[verifier::spinoff_prover]
#[verifier::rlimit(40)]
fn plan_copies_rec(
    root: &ResolvedRootModule,
    listings: &Vec<SourceListing>,
    imports: &Vec<FileImports>,
    ctx: &mut Context,
    deps: Vec<ResolvedDependency>,
)
    requires
        old(ctx).wf(root@, listings@),
        modules_closed(root@.modules),
        edges_resolved(root@.modules, deps@),
        forall|k: int| 0 <= k < deps@.len() ==> graph_edge(root@, #[trigger] deps@[k]@),
        copies_justified(root@, listings@, imports@, mapping_views(old(ctx).plan@), 0),
    ensures
        reports_kept(old(ctx).unresolved@, final(ctx).unresolved@),
        final(ctx).wf(root@, listings@),
        copies_justified(root@, listings@, imports@, mapping_views(final(ctx).plan@), 0),
        final(ctx).deny@ == old(ctx).deny@,
        final(ctx).active@ == old(ctx).active@,
        final(ctx).additional@ == old(ctx).additional@,
        final(ctx).prunes@.len() == old(ctx).prunes@.len(),
        plan_extends(mapping_views(old(ctx).plan@), mapping_views(final(ctx).plan@)),
        old(ctx).active@.len() == 0 && old(ctx).prunes@.len() == 0 && old(ctx).deny@.len() == 0 ==> forall|k: int|
            0 <= k < deps@.len() && !deps@[k]@.rules.transitive && !deps@[k]@.rules.prune ==> edge_files_covered(
                listings@,
                #[trigger] deps@[k]@,
                mapping_views(final(ctx).plan@),
            ),
        old(ctx).prunes@.len() == 0 ==> forall|k: int|
            0 <= k < deps@.len() && !deps@[k]@.rules.transitive && !deps@[k]@.rules.prune && !(edge_in(
                old(ctx).active@,
                deps@[k]@,
            ) && !edge_in(old(ctx).additional@, deps@[k]@)) ==> edge_files_covered_under(
                listings@,
                #[trigger] deps@[k]@,
                mapping_views(final(ctx).plan@),
                deny_views(old(ctx).deny@),
            ),
        waiting_kept(old(ctx).prunes@, final(ctx).prunes@, mapping_views(final(ctx).plan@)),
        old(ctx).prunes@.len() == 0 && old(ctx).additional@.len() == 0 ==> forall|depth: nat|
            #[trigger] tree_covered(
                root@,
                listings@,
                mapping_views(final(ctx).plan@),
                super::edge_views(old(ctx).active@),
                deny_views(old(ctx).deny@),
                super::edge_views(deps@),
                depth,
            ),
        old(ctx).active@.len() == 0 && old(ctx).prunes@.len() == 0 && old(ctx).deny@.len() == 0 ==> forall|k: int|
            0 <= k < deps@.len() && deps@[k]@.rules.prune && !deps@[k]@.rules.transitive ==> pruned_files_reached(
                listings@,
                #[trigger] deps@[k]@,
                mapping_views(final(ctx).plan@),
                final(ctx).unresolved@,
            ),
    decreases usize::MAX - old(ctx).active@.len(), 1int,
{
    let ghost plan0 = mapping_views(ctx.plan@);
    let ghost top_level = ctx.active@.len() == 0 && ctx.prunes@.len() == 0 && ctx.deny@.len() == 0;
    let ghost mods = root@.modules;
    let ghost rv = root@;
    let ghost ls = listings@;
    let ghost active0 = ctx.active@;
    let mut transitive: Vec<ResolvedDependency> = Vec::new();
    let mut i: usize = 0;
    while i < deps.len()
        invariant
            rv == root@,
            edges_resolved(mods, deps@),
            edges_resolved(mods, transitive@),
            forall|k: int| 0 <= k < deps@.len() ==> graph_edge(rv, #[trigger] deps@[k]@),
            forall|k: int| 0 <= k < transitive@.len() ==> graph_edge(rv, #[trigger] transitive@[k]@),
        decreases deps.len() - i,
    {
        if deps[i].rules.transitive {
            transitive.push(deps[i].clone());
        }
        i = i + 1;
    }
    let mut tasks: Vec<Task> = Vec::new();
    proof {
        lemma_waiting_refl(ctx.prunes@, mapping_views(ctx.plan@));
    }
    let mut i: usize = 0;
    while i < deps.len()
        invariant
            ctx.wf(rv, ls),
            rv == root@ && ls == listings@,
            mods == root@.modules,
            edges_resolved(mods, deps@),
            forall|k: int| 0 <= k < deps@.len() ==> graph_edge(rv, #[trigger] deps@[k]@),
            ctx.deny@ == old(ctx).deny@,
            ctx.active@ == old(ctx).active@,
            ctx.additional@ == old(ctx).additional@,
            ctx.prunes@.len() == old(ctx).prunes@.len(),
            forall|k: int| 0 <= k < tasks@.len() ==> is_resolved(mods, #[trigger] tasks@[k].dep@.name),
            forall|k: int| 0 <= k < tasks@.len() ==> (#[trigger] tasks@[k].prune matches Some(p) ==> p.root < mods.len()),
            forall|k: int| 0 <= k < tasks@.len() ==> (#[trigger] tasks@[k].prune is Some ==> has_pruned_edge(rv)),
            i <= deps.len(),
            plan0 == mapping_views(old(ctx).plan@),
            plan_extends(plan0, mapping_views(ctx.plan@)),
            copies_justified(rv, ls, imports@, mapping_views(ctx.plan@), 0),
            waiting_kept(old(ctx).prunes@, ctx.prunes@, mapping_views(ctx.plan@)),
            ctx.unresolved@ == old(ctx).unresolved@,
            top_level == (old(ctx).active@.len() == 0 && old(ctx).prunes@.len() == 0 && old(ctx).deny@.len() == 0),
            top_level ==> forall|k: int|
                0 <= k < i && deps@[k]@.rules.prune && !deps@[k]@.rules.transitive ==> pruned_files_reached(
                    ls,
                    #[trigger] deps@[k]@,
                    mapping_views(ctx.plan@),
                    ctx.unresolved@,
                ) || pending_in_task(ls, deps@[k]@, mapping_views(ctx.plan@), tasks@),
            forall|k: int|
                0 <= k < i && !deps@[k]@.rules.transitive && !deps@[k]@.rules.prune && old(ctx).prunes@.len() == 0
                    && !(edge_in(old(ctx).active@, deps@[k]@) && !edge_in(old(ctx).additional@, deps@[k]@))
                    ==> edge_files_covered_under(ls, #[trigger] deps@[k]@, mapping_views(ctx.plan@), deny_views(old(ctx).deny@)),
            old(ctx).prunes@.len() == 0 && old(ctx).additional@.len() == 0 ==> forall|k: int|
                0 <= k < i && plain_edge(deps@[k]@) && !edge_in(old(ctx).active@, deps@[k]@) ==> task_for(
                    tasks@,
                    #[trigger] deps@[k]@,
                ),
        decreases deps.len() - i,
    {
        let ghost p1 = mapping_views(ctx.plan@);
        let ghost pr1 = ctx.prunes@;
        let ghost tasks1 = tasks@;
        let d = &deps[i];
        assert(is_resolved(mods, deps@[i as int]@.name));
        let pruning = ctx.prunes.len() > 0;
        let skip = (d.rules.transitive && !pruning) || (ctx.is_active(d) && !ctx.is_additional(d));
        if !skip {
            if d.rules.prune || pruning {
                let (pc, copied) = plan_pruning(root, listings, imports, ctx, d);
                proof {
                    if top_level {
                        assert(deny_views(old(ctx).deny@) =~= seq![]);
                    }
                }
                let ghost pc_v = pc;
                if copied {
                    tasks.push(Task { dep: d.clone(), prune: pc, include_additional: true });
                    assert(tasks@.last().prune == pc_v);
                    assert(tasks@.last().dep@ == deps@[i as int]@);
                }
            } else {
                plan_not_pruning(root, listings, ctx, d);
                tasks.push(Task { dep: d.clone(), prune: None, include_additional: false });
                assert(tasks@.last().dep@ == deps@[i as int]@);
            }
        }
        proof {
            assert(tasks@.len() >= tasks1.len());
            assert(tasks@.len() <= tasks1.len() + 1);
            assert(forall|t: int| 0 <= t < tasks1.len() ==> tasks@[t] == tasks1[t]);
            assert(tasks@.len() > tasks1.len() ==> tasks@[tasks1.len() as int].dep@ == deps@[i as int]@);
            assert forall|k: int| 0 <= k < tasks@.len() implies is_resolved(mods, #[trigger] tasks@[k].dep@.name) by {
                if k < tasks1.len() {
                    assert(tasks@[k] == tasks1[k]);
                    assert(is_resolved(mods, tasks1[k].dep@.name));
                } else {
                    assert(k == tasks1.len());
                    assert(tasks@[k].dep@ == deps@[i as int]@);
                    assert(tasks@[k].dep@.name == deps@[i as int]@.name);
                }
            }
            if old(ctx).prunes@.len() == 0 && old(ctx).additional@.len() == 0 {
                assert forall|k: int| 0 <= k < i + 1 && plain_edge(deps@[k]@) && !edge_in(old(ctx).active@, deps@[k]@) implies task_for(
                    tasks@,
                    #[trigger] deps@[k]@,
                ) by {
                    if k < i {
                        let t = choose|t: int|
                            0 <= t < tasks1.len() && #[trigger] tasks1[t].dep@ == deps@[k]@ && tasks1[t].prune is None
                                && !tasks1[t].include_additional;
                        assert(tasks@[t] == tasks1[t]);
                    } else {
                        assert(!edge_in(old(ctx).additional@, deps@[k]@));
                        assert(tasks@[tasks@.len() - 1].dep@ == deps@[k]@);
                    }
                }
            }
        }
        proof {
            let p2 = mapping_views(ctx.plan@);
            lemma_extends_trans(plan0, p1, p2);
            if p2 != p1 {
                lemma_justified_extends(rv, ls, imports@, p1, p2);
            }
            if ctx.prunes@ == pr1 && p2 == p1 {
                lemma_waiting_refl(pr1, p1);
            }
            lemma_waiting_trans(old(ctx).prunes@, pr1, ctx.prunes@, p1, p2);
            if top_level {
                assert forall|k: int|
                    0 <= k < i + 1 && deps@[k]@.rules.prune && !deps@[k]@.rules.transitive implies pruned_files_reached(
                        ls,
                        #[trigger] deps@[k]@,
                        p2,
                        ctx.unresolved@,
                    ) || pending_in_task(ls, deps@[k]@, p2, tasks@) by {
                    if k < i {
                        if pruned_files_reached(ls, deps@[k]@, p1, ctx.unresolved@) {
                            lemma_reached_kept(ls, deps@[k]@, p1, ctx.unresolved@, p2, ctx.unresolved@);
                        } else {
                            let t = choose|t: int|
                                0 <= t < tasks1.len() && (#[trigger] tasks1[t].prune matches Some(p) && pruned_roots_accounted(
                                    ls,
                                    deps@[k]@,
                                    p1,
                                    seq![],
                                    crate::text::views(p.remaining@),
                                ));
                            assert(tasks@[t] == tasks1[t]);
                            lemma_roots_plan_kept(ls, deps@[k]@, p1, p2, crate::text::views(tasks1[t].prune->0.remaining@));
                        }
                    } else {
                        assert(deps@[k] == deps@[i as int]);
                        if tasks@.len() > tasks1.len() {
                            let t = tasks1.len() as int;
                            assert(tasks@[t].prune is Some);
                        } else {
                            assert forall|kk: int, j: int| !#[trigger] lets_through(ls, deps@[k]@, seq![], kk, j) by {
                                assert(!lets_through(ls, deps@[k]@, deny_views(old(ctx).deny@), kk, j));
                            }
                        }
                    }
                }
            }
            assert forall|k: int|
                0 <= k < i + 1 && !deps@[k]@.rules.transitive && !deps@[k]@.rules.prune && old(ctx).prunes@.len() == 0
                    && !(edge_in(old(ctx).active@, deps@[k]@) && !edge_in(old(ctx).additional@, deps@[k]@))
                    implies edge_files_covered_under(ls, #[trigger] deps@[k]@, p2, deny_views(old(ctx).deny@)) by {
                if k < i {
                    lemma_edge_files_under_kept(ls, deps@[k]@, p1, p2, deny_views(old(ctx).deny@));
                }
            }
        }
        i = i + 1;
    }
    while tasks.len() > 0
        invariant
            ctx.wf(rv, ls),
            rv == root@ && ls == listings@,
            mods == root@.modules,
            modules_closed(mods),
            edges_resolved(mods, transitive@),
            forall|k: int| 0 <= k < transitive@.len() ==> graph_edge(rv, #[trigger] transitive@[k]@),
            ctx.deny@ == old(ctx).deny@,
            ctx.active@ == active0,
            active0 == old(ctx).active@,
            ctx.additional@ == old(ctx).additional@,
            ctx.prunes@.len() == old(ctx).prunes@.len(),
            forall|k: int| 0 <= k < tasks@.len() ==> is_resolved(mods, #[trigger] tasks@[k].dep@.name),
            forall|k: int| 0 <= k < tasks@.len() ==> (#[trigger] tasks@[k].prune matches Some(p) ==> p.root < mods.len()),
            forall|k: int| 0 <= k < tasks@.len() ==> (#[trigger] tasks@[k].prune is Some ==> has_pruned_edge(rv)),
            plan0 == mapping_views(old(ctx).plan@),
            plan_extends(plan0, mapping_views(ctx.plan@)),
            copies_justified(rv, ls, imports@, mapping_views(ctx.plan@), 0),
            waiting_kept(old(ctx).prunes@, ctx.prunes@, mapping_views(ctx.plan@)),
            reports_kept(old(ctx).unresolved@, ctx.unresolved@),
            top_level == (old(ctx).active@.len() == 0 && old(ctx).prunes@.len() == 0 && old(ctx).deny@.len() == 0),
            top_level ==> forall|k: int|
                0 <= k < deps@.len() && deps@[k]@.rules.prune && !deps@[k]@.rules.transitive ==> pruned_files_reached(
                    ls,
                    #[trigger] deps@[k]@,
                    mapping_views(ctx.plan@),
                    ctx.unresolved@,
                ) || pending_in_task(ls, deps@[k]@, mapping_views(ctx.plan@), tasks@),
            forall|k: int|
                0 <= k < deps@.len() && !deps@[k]@.rules.transitive && !deps@[k]@.rules.prune && old(ctx).prunes@.len() == 0
                    && !(edge_in(old(ctx).active@, deps@[k]@) && !edge_in(old(ctx).additional@, deps@[k]@))
                    ==> edge_files_covered_under(ls, #[trigger] deps@[k]@, mapping_views(ctx.plan@), deny_views(old(ctx).deny@)),
            old(ctx).prunes@.len() == 0 && old(ctx).additional@.len() == 0 ==> forall|k: int|
                0 <= k < deps@.len() && plain_edge(deps@[k]@) && !edge_in(old(ctx).active@, deps@[k]@) ==> task_for(
                    tasks@,
                    #[trigger] deps@[k]@,
                ) || subtree_done(
                    rv,
                    ls,
                    mapping_views(ctx.plan@),
                    super::edge_views(active0),
                    deny_views(old(ctx).deny@),
                    deps@[k]@,
                ),
        decreases tasks.len(),
    {
        let ghost p1 = mapping_views(ctx.plan@);
        let ghost pr1 = ctx.prunes@;
        let ghost u1 = ctx.unresolved@;
        let ghost tasks1 = tasks@;
        let task = tasks.remove(0);
        let ghost task_v = task;
        let ghost mut p_c = p1;
        let ghost mut u_c = u1;
        assert(is_resolved(mods, task.dep@.name));
        ctx.active.push(task.dep.clone());
        let _depth = ctx.active.len();
        let ghost top_dep = ctx.active@.last();
        assert(ctx.active@ == active0.push(top_dep));
        if task.include_additional {
            let keep = ctx.additional.len();
            let ghost additional0 = ctx.additional@;
            let mut k: usize = 0;
            while k < transitive.len()
                invariant
                    ctx.wf(rv, ls),
                    rv == root@ && ls == listings@,
                    mods == root@.modules,
                    edges_resolved(mods, transitive@),
                    forall|k: int| 0 <= k < transitive@.len() ==> graph_edge(rv, #[trigger] transitive@[k]@),
                    keep <= ctx.additional@.len(),
                    ctx.additional@.take(keep as int) == additional0,
                    additional0.len() == keep,
                    ctx.deny@ == old(ctx).deny@,
                    ctx.active@ == active0.push(top_dep),
                    ctx.prunes@.len() == old(ctx).prunes@.len(),
                    mapping_views(ctx.plan@) == p1,
                    ctx.prunes@ == pr1,
                    ctx.unresolved@ == u1,
                decreases transitive.len() - k,
            {
                assert(is_resolved(mods, transitive@[k as int]@.name));
                assert(graph_edge(rv, transitive@[k as int]@));
                if !ctx.is_additional(&transitive[k]) {
                    let ghost before = ctx.additional@;
                    ctx.additional.push(transitive[k].clone());
                    assert(ctx.additional@.take(keep as int) =~= additional0);
                    assert(forall|j: int| 0 <= j < before.len() ==> ctx.additional@[j] == before[j]);
                }
                k = k + 1;
            }
            plan_children(root, listings, imports, ctx, task);
            proof {
                p_c = mapping_views(ctx.plan@);
                u_c = ctx.unresolved@;
            }
            let ghost p_mid = mapping_views(ctx.plan@);
            let ghost pr_mid = ctx.prunes@;
            let ghost u_mid = ctx.unresolved@;
            while ctx.additional.len() > keep
                invariant
                    mapping_views(ctx.plan@) == p_mid,
                    ctx.prunes@ == pr_mid,
                    ctx.unresolved@ == u_mid,
                    ctx.wf(rv, ls),
            rv == root@ && ls == listings@,
                    keep <= ctx.additional@.len(),
                    ctx.additional@.take(keep as int) == additional0,
                    ctx.deny@ == old(ctx).deny@,
                    ctx.active@ == active0.push(top_dep),
                    ctx.prunes@.len() == old(ctx).prunes@.len(),
                decreases ctx.additional.len(),
            {
                ctx.additional.pop();
                assert(ctx.additional@.take(keep as int) =~= additional0);
            }
            assert(ctx.additional@ =~= additional0);
        } else {
            plan_children(root, listings, imports, ctx, task);
            proof {
                p_c = mapping_views(ctx.plan@);
                u_c = ctx.unresolved@;
                if old(ctx).prunes@.len() == 0 && old(ctx).additional@.len() == 0 && task_v.prune is None {
                    assert(super::edge_views(active0.push(top_dep)) =~= super::edge_views(active0).push(task_v.dep@));
                    assert(subtree_done(rv, ls, p_c, super::edge_views(active0), deny_views(old(ctx).deny@), task_v.dep@));
                }
            }
        }
        ctx.active.pop();
        assert(ctx.active@ =~= active0);
        proof {
            let p2 = mapping_views(ctx.plan@);
            lemma_extends_trans(plan0, p1, p2);
            lemma_waiting_trans(old(ctx).prunes@, pr1, ctx.prunes@, p1, p2);
            lemma_reports_trans(old(ctx).unresolved@, u1, ctx.unresolved@);
            assert(p2 == p_c && ctx.unresolved@ == u_c);
            assert(reports_kept(u1, ctx.unresolved@));
            if top_level {
                assert forall|k: int|
                    0 <= k < deps@.len() && deps@[k]@.rules.prune && !deps@[k]@.rules.transitive implies pruned_files_reached(
                        ls,
                        #[trigger] deps@[k]@,
                        p2,
                        ctx.unresolved@,
                    ) || pending_in_task(ls, deps@[k]@, p2, tasks@) by {
                    if pruned_files_reached(ls, deps@[k]@, p1, u1) {
                        lemma_reached_kept(ls, deps@[k]@, p1, u1, p2, ctx.unresolved@);
                    } else {
                        let t = choose|t: int|
                            0 <= t < tasks1.len() && (#[trigger] tasks1[t].prune matches Some(p) && pruned_roots_accounted(
                                ls,
                                deps@[k]@,
                                p1,
                                seq![],
                                crate::text::views(p.remaining@),
                            ));
                        let w = crate::text::views(tasks1[t].prune->0.remaining@);
                        if t == 0 {
                            assert(task_v == tasks1[0]);
                            lemma_roots_settled(ls, deps@[k]@, p1, w, p2, ctx.unresolved@);
                        } else {
                            assert(tasks@[t - 1] == tasks1[t]);
                            lemma_roots_plan_kept(ls, deps@[k]@, p1, p2, w);
                        }
                    }
                }
            }
            assert forall|k: int|
                0 <= k < deps@.len() && !deps@[k]@.rules.transitive && !deps@[k]@.rules.prune && old(ctx).prunes@.len() == 0
                    && !(edge_in(old(ctx).active@, deps@[k]@) && !edge_in(old(ctx).additional@, deps@[k]@))
                    implies edge_files_covered_under(ls, #[trigger] deps@[k]@, p2, deny_views(old(ctx).deny@)) by {
                lemma_edge_files_under_kept(ls, deps@[k]@, p1, p2, deny_views(old(ctx).deny@));
            }
            assert forall|k: int| 0 <= k < tasks@.len() implies is_resolved(mods, #[trigger] tasks@[k].dep@.name) by {
                assert(tasks@[k] == tasks1[k + 1]);
                assert(is_resolved(mods, tasks1[k + 1].dep@.name));
            }
            if old(ctx).prunes@.len() == 0 && old(ctx).additional@.len() == 0 {
                let av = super::edge_views(active0);
                let ov = deny_views(old(ctx).deny@);
                assert forall|k: int|
                    0 <= k < deps@.len() && plain_edge(deps@[k]@) && !edge_in(old(ctx).active@, deps@[k]@) implies task_for(
                        tasks@,
                        #[trigger] deps@[k]@,
                    ) || subtree_done(rv, ls, p2, av, ov, deps@[k]@) by {
                    if task_for(tasks1, deps@[k]@) {
                        let t = choose|t: int|
                            0 <= t < tasks1.len() && #[trigger] tasks1[t].dep@ == deps@[k]@ && tasks1[t].prune is None
                                && !tasks1[t].include_additional;
                        if t == 0 {
                            assert(task_v == tasks1[0]);
                        } else {
                            assert(tasks@[t - 1] == tasks1[t]);
                        }
                    } else {
                        lemma_subtree_kept(rv, ls, p1, p2, av, ov, deps@[k]@);
                    }
                }
            }
        }
    }
    proof {
        if old(ctx).prunes@.len() == 0 && old(ctx).additional@.len() == 0 {
            let pf = mapping_views(ctx.plan@);
            let av = super::edge_views(active0);
            let ov = deny_views(old(ctx).deny@);
            let dv = super::edge_views(deps@);
            assert forall|depth: nat| #[trigger] tree_covered(rv, ls, pf, av, ov, dv, depth) by {
                assert forall|k: int| 0 <= k < dv.len() && plain_edge(dv[k]) && !edge_among(av, dv[k]) implies {
                    &&& edge_files_covered_under(ls, #[trigger] dv[k], pf, ov)
                    &&& depth > 0 ==> forall|i: int|
                        first_module_named(rv.modules, dv[k].name, i) ==> tree_covered(
                            rv,
                            ls,
                            pf,
                            av.push(dv[k]),
                            ov.push(dv[k].rules.deny_policies),
                            rv.modules[i].dependencies,
                            (depth - 1) as nat,
                        )
                } by {
                    assert(dv[k] == deps@[k]@);
                    lemma_edge_in_views(active0, dv[k]);
                    assert(!edge_in(old(ctx).additional@, deps@[k]@));
                    assert(!task_for(tasks@, deps@[k]@));
                    assert(subtree_done(rv, ls, pf, av, ov, deps@[k]@));
                }
            }
        }
        if top_level {
            assert forall|k: int|
                0 <= k < deps@.len() && deps@[k]@.rules.prune && !deps@[k]@.rules.transitive implies pruned_files_reached(
                    listings@,
                    #[trigger] deps@[k]@,
                    mapping_views(ctx.plan@),
                    ctx.unresolved@,
                ) by {
                if !pruned_files_reached(ls, deps@[k]@, mapping_views(ctx.plan@), ctx.unresolved@) {
                    assert(pending_in_task(ls, deps@[k]@, mapping_views(ctx.plan@), tasks@));
                }
            }
            assert(deny_views(old(ctx).deny@) =~= seq![]);
            assert forall|k: int|
                0 <= k < deps@.len() && !deps@[k]@.rules.transitive && !deps@[k]@.rules.prune implies edge_files_covered(
                ls,
                #[trigger] deps@[k]@,
                mapping_views(ctx.plan@),
            ) by {
                assert(!edge_in(old(ctx).active@, deps@[k]@));
                lemma_edge_files_under_none(ls, deps@[k]@, mapping_views(ctx.plan@));
            }
        }
    }
}

/// Plans the copies for the dependencies of a planned dependency, under its deny
/// policies and, when it is pruned, its pruning context; the files its pruning did not
/// find are reported. Outside any pruning, every file of each of the module's own
/// dependencies that is neither transitive, pruned nor part of a cycle, and that the
/// policies in force let through, is covered.
fn plan_children(
    root: &ResolvedRootModule,
    listings: &Vec<SourceListing>,
    imports: &Vec<FileImports>,
    ctx: &mut Context,
    task: Task,
)
    requires
        old(ctx).wf(root@, listings@),
        modules_closed(root@.modules),
        is_resolved(root@.modules, task.dep@.name),
        task.prune matches Some(p) ==> p.root < root@.modules.len(),
        task.prune is Some ==> has_pruned_edge(root@),
        copies_justified(root@, listings@, imports@, mapping_views(old(ctx).plan@), 0),
    ensures
        reports_kept(old(ctx).unresolved@, final(ctx).unresolved@),
        final(ctx).wf(root@, listings@),
        copies_justified(root@, listings@, imports@, mapping_views(final(ctx).plan@), 0),
        final(ctx).deny@ == old(ctx).deny@,
        final(ctx).active@ == old(ctx).active@,
        final(ctx).additional@ == old(ctx).additional@,
        final(ctx).prunes@.len() == old(ctx).prunes@.len(),
        plan_extends(mapping_views(old(ctx).plan@), mapping_views(final(ctx).plan@)),
        old(ctx).prunes@.len() == 0 && task.prune is None ==> forall|i: int, j: int|
            first_module_named(root@.modules, task.dep@.name, i) && 0 <= j < root@.modules[i].dependencies.len()
                && !root@.modules[i].dependencies[j].rules.transitive && !root@.modules[i].dependencies[j].rules.prune
                && !(edge_in(old(ctx).active@, root@.modules[i].dependencies[j]) && !edge_in(
                old(ctx).additional@,
                root@.modules[i].dependencies[j],
            )) ==> edge_files_covered_under(
                listings@,
                #[trigger] root@.modules[i].dependencies[j],
                mapping_views(final(ctx).plan@),
                deny_views(old(ctx).deny@).push(task.dep@.rules.deny_policies),
            ),
        waiting_kept(old(ctx).prunes@, final(ctx).prunes@, mapping_views(final(ctx).plan@)),
        old(ctx).prunes@.len() == 0 && task.prune is None && old(ctx).additional@.len() == 0 ==> forall|i: int, depth: nat|
            first_module_named(root@.modules, task.dep@.name, i) ==> #[trigger] tree_covered(
                root@,
                listings@,
                mapping_views(final(ctx).plan@),
                super::edge_views(old(ctx).active@),
                deny_views(old(ctx).deny@).push(task.dep@.rules.deny_policies),
                root@.modules[i].dependencies,
                depth,
            ),
        task.prune matches Some(p) ==> forall|q: Seq<char>|
            #[trigger] path_in(crate::text::views(p.remaining@), q) ==> path_planned(mapping_views(final(ctx).plan@), q)
                || reported(final(ctx).unresolved@, q),
    decreases usize::MAX - old(ctx).active@.len(), 2int,
{
    let ghost plan0 = mapping_views(ctx.plan@);
    let ghost mods = root@.modules;
    let ghost rv = root@;
    let ghost ls = listings@;
    let ghost deny0 = ctx.deny@;
    let ghost prunes0 = ctx.prunes@.len();
    let mi = module_index(root, &task.dep.name);
    let module = &root.modules[mi];
    let mut deps = clone_edges(&module.dependencies);
    let ghost d0 = deps@;
    let ghost n = deps@.len();
    proof {
        assert forall|k: int| 0 <= k < deps@.len() implies is_resolved(mods, #[trigger] deps@[k]@.name) by {
            assert(deps@[k]@ == module.dependencies@[k]@);
            assert(mods[mi as int].dependencies[k] == module.dependencies@[k]@);
        }
        assert forall|k: int| 0 <= k < deps@.len() implies graph_edge(rv, #[trigger] deps@[k]@) by {
            assert(deps@[k]@ == module.dependencies@[k]@);
            assert(rv.modules[mi as int].dependencies[k] == module.dependencies@[k]@);
        }
    }
    if task.include_additional {
        let mut k: usize = 0;
        while k < ctx.additional.len()
            invariant
                edges_resolved(mods, deps@),
                edges_resolved(mods, ctx.additional@),
                forall|k: int| 0 <= k < deps@.len() ==> graph_edge(rv, #[trigger] deps@[k]@),
                forall|k: int| 0 <= k < ctx.additional@.len() ==> graph_edge(rv, #[trigger] ctx.additional@[k]@),
                n <= deps@.len(),
                deps@.take(n as int) == d0,
                deps@.len() == n + k,
                k <= ctx.additional@.len(),
            decreases ctx.additional.len() - k,
        {
            let ghost before = deps@;
            deps.push(ctx.additional[k].clone());
            assert(deps@.take(n as int) =~= before.take(n as int));
            k = k + 1;
        }
    }
    assert(deps@.take(n as int) =~= d0);
    ctx.deny.push(task.dep.rules.deny_policies.duplicate());
    let ghost had_prune = task.prune is Some;
    let ghost tp = task.prune;
    let pushed = match task.prune {
        Some(p) => {
            ctx.prunes.push(p);
            true
        },
        None => false,
    };
    assert(pushed ==> had_prune);
    let ghost deny_in = ctx.deny@;
    assert(deny_views(deny_in) =~= deny_views(deny0).push(task.dep@.rules.deny_policies));
    let ghost deps_v = deps@;
    let ghost pr_in = ctx.prunes@;
    let ghost plan_in = mapping_views(ctx.plan@);
    proof {
        lemma_waiting_one_grows(old(ctx).prunes@, pr_in, -1, plan_in);
        assert(plan_in == plan0);
    }
    plan_copies_rec(root, listings, imports, ctx, deps);
    let ghost plan_rec = mapping_views(ctx.plan@);
    let ghost pr_rec = ctx.prunes@;
    proof {
        lemma_waiting_trans(old(ctx).prunes@, pr_in, pr_rec, plan_in, plan_rec);
    }
    let ghost unresolved0 = ctx.unresolved@;
    assert(reports_kept(old(ctx).unresolved@, unresolved0));
    if pushed {
        let p = ctx.prunes.pop().unwrap();
        proof {
            lemma_waiting_prefix(old(ctx).prunes@, pr_rec, ctx.prunes@, plan_rec);
            let t = prunes0 as int;
            assert(pr_in[t] == tp->0);
            assert(pr_rec[t] == p);
            assert forall|q: Seq<char>| #[trigger] path_in(crate::text::views(tp->0.remaining@), q) implies found_or_waiting(
                plan_rec,
                crate::text::views(p.remaining@),
                q,
            ) by {
                assert(path_in(crate::text::views(pr_in[t].remaining@), q));
            }
        }
        let mut k: usize = 0;
        while k < p.remaining.len()
            invariant
                ctx.wf(rv, ls),
                rv == root@ && ls == listings@,
                mods == root@.modules,
                p.root < mods.len(),
                has_pruned_edge(rv),
                ctx.deny@ == deny0.push(ctx.deny@.last()),
                ctx.deny@.len() == deny0.len() + 1,
                ctx.active@ == old(ctx).active@,
                ctx.additional@ == old(ctx).additional@,
                ctx.prunes@.len() == prunes0,
                plan_extends(plan0, mapping_views(ctx.plan@)),
                mapping_views(ctx.plan@) == plan_rec,
                waiting_kept(old(ctx).prunes@, ctx.prunes@, plan_rec),
                k <= p.remaining@.len(),
                forall|x: int| 0 <= x < k ==> reported(ctx.unresolved@, #[trigger] p.remaining@[x]@),
                reports_kept(old(ctx).unresolved@, ctx.unresolved@),
            decreases p.remaining.len() - k,
        {
            let ghost u0 = ctx.unresolved@;
            ctx.unresolved.push((p.root, p.remaining[k].clone()));
            proof {
                let n = u0.len() as int;
                assert(same_path(ctx.unresolved@[n].1@, p.remaining@[k as int]@));
                assert(reports_kept(u0, ctx.unresolved@));
                lemma_reports_trans(old(ctx).unresolved@, u0, ctx.unresolved@);
                assert forall|x: int| 0 <= x < k + 1 implies reported(ctx.unresolved@, #[trigger] p.remaining@[x]@) by {
                    if x < k {
                        let w = choose|w: int| 0 <= w < u0.len() && same_path(#[trigger] u0[w].1@, p.remaining@[x]@);
                        assert(ctx.unresolved@[w] == u0[w]);
                    }
                }
            }
            k = k + 1;
        }
        proof {
            assert forall|q: Seq<char>| #[trigger] path_in(crate::text::views(tp->0.remaining@), q) implies path_planned(
                plan_rec,
                q,
            ) || reported(ctx.unresolved@, q) by {
                if !path_planned(plan_rec, q) {
                    let rv2 = crate::text::views(p.remaining@);
                    assert(path_in(rv2, q));
                    let w = choose|w: int| 0 <= w < rv2.len() && same_path(#[trigger] rv2[w], q);
                    assert(rv2[w] == p.remaining@[w]@);
                    assert(reported(ctx.unresolved@, p.remaining@[w]@));
                    let v = choose|v: int| 0 <= v < ctx.unresolved@.len() && same_path(#[trigger] ctx.unresolved@[v].1@, p.remaining@[w]@);
                    assert(same_path(ctx.unresolved@[v].1@, q));
                }
            }
        }
    } else {
        proof {
            lemma_waiting_prefix(old(ctx).prunes@, pr_rec, ctx.prunes@, plan_rec);
        }
    }
    ctx.deny.pop();
    assert(ctx.deny@ =~= deny0);
    proof {
        if prunes0 == 0 && task.prune is None {
            assert(!pushed);
            assert(mapping_views(ctx.plan@) == plan_rec);
            assert forall|i: int, j: int|
                first_module_named(mods, task.dep@.name, i) && 0 <= j < mods[i].dependencies.len()
                    && !mods[i].dependencies[j].rules.transitive && !mods[i].dependencies[j].rules.prune
                    && !(edge_in(old(ctx).active@, mods[i].dependencies[j]) && !edge_in(
                    old(ctx).additional@,
                    mods[i].dependencies[j],
                )) implies edge_files_covered_under(
                ls,
                #[trigger] mods[i].dependencies[j],
                plan_rec,
                deny_views(deny0).push(task.dep@.rules.deny_policies),
            ) by {
                if i < mi {
                    assert(mods[i].name != task.dep@.name);
                } else if mi < i {
                    assert(mods[mi as int].name != task.dep@.name);
                }
                assert(d0[j]@ == module.dependencies@[j]@);
                assert(mods[mi as int].dependencies[j] == module.dependencies@[j]@);
                assert(deps_v[j] == d0[j]);
                assert(j < deps_v.len());
                assert(deps_v[j]@ == mods[i].dependencies[j]);
            }
            if old(ctx).additional@.len() == 0 {
                assert(deps_v.len() == n);
                assert(super::edge_views(deps_v) =~= mods[mi as int].dependencies) by {
                    assert forall|j: int| 0 <= j < n implies #[trigger] super::edge_views(deps_v)[j] == mods[mi as int].dependencies[j] by {
                        assert(deps_v[j] == d0[j]);
                        assert(d0[j]@ == module.dependencies@[j]@);
                        assert(mods[mi as int].dependencies[j] == module.dependencies@[j]@);
                    }
                }
                assert forall|i: int, depth: nat| first_module_named(mods, task.dep@.name, i) implies #[trigger] tree_covered(
                    rv,
                    ls,
                    plan_rec,
                    super::edge_views(old(ctx).active@),
                    deny_views(deny0).push(task.dep@.rules.deny_policies),
                    mods[i].dependencies,
                    depth,
                ) by {
                    if i < mi {
                        assert(mods[i].name != task.dep@.name);
                    } else if mi < i {
                        assert(mods[mi as int].name != task.dep@.name);
                    }
                    assert(tree_covered(
                        rv,
                        ls,
                        plan_rec,
                        super::edge_views(old(ctx).active@),
                        deny_views(deny_in),
                        super::edge_views(deps_v),
                        depth,
                    ));
                }
            }
        }
    }
}

/// The copy plan of a resolved graph.
pub struct CopyPlan {
    /// The files to copy, in order.
    pub mappings: Vec<ProtoFileMapping>,
    /// The imports that pruned modules needed and did not find.
    pub unresolved_imports: Vec<UnresolvedImport>,
}

/// Plans the copies of the proto files of a resolved graph: the root's dependencies,
/// then theirs, depth first, each under its rules. No target is written from two
/// places and no file goes to two targets; every copy is a listed file of an edge of
/// the graph that the edge's deny policies let through, and one that the edge's allow
/// policies let through too, unless the edge is pruned and the file is reached from
/// those through the imports of files found for it (where no edge is pruned, every
/// copy is one the allow policies let through); every file of a root
/// dependency that is neither pruned nor transitive, and that its policies let
/// through, is copied or set aside for a copy it conflicts with, and so is every file
/// of each such edge reached from those through such edges, outside cycles, under
/// the deny policies along the way (`graph_covered`); and every file that
/// a pruned root dependency's policies let through is copied (or set aside) or
/// reported as an unresolved import.
pub fn plan_copies(
    resolved: &ResolvedRootModule,
    listings: &Vec<SourceListing>,
    imports: &Vec<FileImports>,
) -> (r: CopyPlan)
    requires
        super::resolve::closed_graph(resolved@.dependencies, resolved@.modules),
    ensures
        plan_wf(mapping_views(r.mappings@)),
        plan_traced(resolved@, listings@, mapping_views(r.mappings@)),
        !has_pruned_edge(resolved@) ==> plan_allowed(resolved@, listings@, mapping_views(r.mappings@)),
        copies_justified(resolved@, listings@, imports@, mapping_views(r.mappings@), 0),
        graph_covered(resolved@, listings@, mapping_views(r.mappings@)),
        forall|k: int|
            0 <= k < resolved@.dependencies.len() && !resolved@.dependencies[k].rules.transitive
                && !resolved@.dependencies[k].rules.prune ==> edge_files_covered(
                listings@,
                #[trigger] resolved@.dependencies[k],
                mapping_views(r.mappings@),
            ),
        forall|k: int| 0 <= k < r.unresolved_imports@.len() ==> module_of_graph(
            resolved@.modules,
            #[trigger] r.unresolved_imports@[k].module@,
            r.unresolved_imports@[k].coordinate@,
        ),
        !has_pruned_edge(resolved@) ==> r.unresolved_imports@.len() == 0,
        forall|k: int, i: int, j: int|
            0 <= k < resolved@.dependencies.len() && resolved@.dependencies[k].rules.prune
                && !resolved@.dependencies[k].rules.transitive && #[trigger] lets_through(
                listings@,
                resolved@.dependencies[k],
                seq![],
                i,
                j,
            ) ==> covered(mapping_views(r.mappings@), listings@[i].sources@[j]@) || import_reported(
                r.unresolved_imports@,
                listings@[i].sources@[j]@.package_path,
            ),
{
    let ghost mods = resolved@.modules;
    let ghost rv = resolved@;
    let ghost ls = listings@;
    let mut ctx = Context {
        plan: Vec::new(),
        deny: Vec::new(),
        prunes: Vec::new(),
        active: Vec::new(),
        additional: Vec::new(),
        unresolved: Vec::new(),
    };
    assert(mapping_views(ctx.plan@) =~= Seq::<MappingView>::empty());
    let deps = clone_edges(&resolved.dependencies);
    proof {
        assert forall|k: int| 0 <= k < deps@.len() implies is_resolved(mods, #[trigger] deps@[k]@.name) by {
            assert(deps@[k]@ == resolved@.dependencies[k]);
        }
        assert forall|k: int| 0 <= k < deps@.len() implies graph_edge(rv, #[trigger] deps@[k]@) by {
            assert(deps@[k]@ == rv.dependencies[k]);
        }
    }
    assert(ctx.active@.len() == 0 && ctx.prunes@.len() == 0 && ctx.deny@.len() == 0);
    let ghost deps_top = deps@;
    proof {
        assert(super::edge_views(deps_top) =~= rv.dependencies) by {
            assert forall|k: int| 0 <= k < deps_top.len() implies #[trigger] super::edge_views(deps_top)[k] == rv.dependencies[k] by {
                assert(deps_top[k]@ == resolved@.dependencies[k]);
            }
        }
        assert(super::edge_views(ctx.active@) =~= seq![]);
        assert(deny_views(ctx.deny@) =~= seq![]);
    }
    plan_copies_rec(resolved, listings, imports, &mut ctx, deps);
    let ghost plan_top = mapping_views(ctx.plan@);
    assert(graph_covered(rv, ls, plan_top));
    let ghost unresolved_top = ctx.unresolved@;
    proof {
        assert forall|k: int|
            0 <= k < resolved@.dependencies.len() && !resolved@.dependencies[k].rules.transitive
                && !resolved@.dependencies[k].rules.prune implies edge_files_covered(
            listings@,
            #[trigger] resolved@.dependencies[k],
            mapping_views(ctx.plan@),
        ) by {
            assert(deps@[k]@ == resolved@.dependencies[k]);
        }
    }
    let ghost old_plan = ctx.plan@;
    let mut unresolved: Vec<UnresolvedImport> = Vec::new();
    let mut k: usize = 0;
    while k < ctx.unresolved.len()
        invariant
            ctx.wf(rv, ls),
            rv == resolved@ && ls == listings@,
            mods == resolved@.modules,
            ctx.plan@ == old_plan,
            k <= ctx.unresolved@.len(),
            unresolved@.len() == k,
            forall|x: int| 0 <= x < k ==> #[trigger] unresolved@[x].import@ == ctx.unresolved@[x].1@,
            forall|j: int| 0 <= j < unresolved@.len() ==> module_of_graph(
                mods,
                #[trigger] unresolved@[j].module@,
                unresolved@[j].coordinate@,
            ),
        decreases ctx.unresolved.len() - k,
    {
        let (mi, import) = (ctx.unresolved[k].0, ctx.unresolved[k].1.clone());
        let module = &resolved.modules[mi];
        let ghost before = unresolved@;
        assert(ctx.unresolved@[k as int].0 < mods.len());
        assert(mods[mi as int] == module@);
        unresolved.push(
            UnresolvedImport {
                module: module.name.clone(),
                coordinate: module.coordinate.clone(),
                import,
            },
        );
        assert forall|j: int| 0 <= j < unresolved@.len() implies module_of_graph(
            mods,
            #[trigger] unresolved@[j].module@,
            unresolved@[j].coordinate@,
        ) by {
            if j < before.len() {
                assert(unresolved@[j] == before[j]);
                assert(module_of_graph(mods, before[j].module@, before[j].coordinate@));
            } else {
                assert(unresolved@[j].module@ == module.name@);
                assert(unresolved@[j].coordinate@ == module.coordinate@);
                assert(mods[mi as int].name == unresolved@[j].module@);
                assert(mods[mi as int].coordinate == unresolved@[j].coordinate@);
                assert(0 <= mi < mods.len());
            }
        }
        k = k + 1;
    }
    assert(!has_pruned_edge(resolved@) ==> ctx.unresolved@.len() == 0);
    proof {
        assert forall|x: int| 0 <= x < unresolved@.len() implies #[trigger] unresolved@[x].import@ == ctx.unresolved@[x].1@ by {}
        let pl = mapping_views(ctx.plan@);
        assert forall|k: int, i: int, j: int|
            0 <= k < resolved@.dependencies.len() && resolved@.dependencies[k].rules.prune
                && !resolved@.dependencies[k].rules.transitive && #[trigger] lets_through(
                listings@,
                resolved@.dependencies[k],
                seq![],
                i,
                j,
            ) implies covered(pl, listings@[i].sources@[j]@) || import_reported(
                unresolved@,
                listings@[i].sources@[j]@.package_path,
            ) by {
            let src = listings@[i].sources@[j]@;
            assert(deps_top[k]@ == resolved@.dependencies[k]);
            assert(pruned_files_reached(listings@, deps_top[k]@, plan_top, unresolved_top));
            assert(lets_through(listings@, deps_top[k]@, seq![], i, j));
            if path_planned(plan_top, src.package_path) {
                let w = choose|w: int| 0 <= w < plan_top.len() && same_path(#[trigger] plan_top[w].source.package_path, src.package_path);
                assert(pl[w] == plan_top[w]);
            } else {
                assert(reported(unresolved_top, src.package_path));
                let v = choose|v: int| 0 <= v < unresolved_top.len() && same_path(#[trigger] unresolved_top[v].1@, src.package_path);
                assert(unresolved@[v].import@ == unresolved_top[v].1@);
            }
        }
    }
    CopyPlan { mappings: ctx.plan, unresolved_imports: unresolved }
}

} // verus!
