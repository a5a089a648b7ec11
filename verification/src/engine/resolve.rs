//! Resolution of a module's dependency graph.
//!
//! A module's own dependencies are resolved before any of theirs. Then either the
//! dependencies of each newly resolved module are visited in turn, depth first (for
//! `resolve`), or all of one level's are visited before the next level's, breadth
//! first (for `lock`). The first dependency met under a name is the one resolved;
//! later ones with that name are left out. So the root's own dependencies win over any
//! deeper ones. Each module is built from the resolver's answer for it: its commit and
//! its edges; the requests and answers are given back as a record.
use vstd::prelude::*;

use super::{
    edge_views, module_views, EdgeView, FetchError, ModuleView, ResolvedDependency,
    ResolvedModule, ResolvedRootModule,
};
use crate::model::protofetch::descriptor::{
    dependency_views, Dependency, DependencyView, Descriptor,
};
use crate::model::protofetch::lock::{
    locked_coordinate, locked_views, LockFile, LockedCoordinate, LockedDependency,
    LockedDependencyView,
};
use crate::model::protofetch::ModuleName;
use crate::model::protofetch::lock::{ordered_by_name, sort_by_name};
use crate::model::protofetch::resolved::ResolvedModule as FlatModule;
use super::compat::flat_dependency;
use crate::resolver::{CommitAndDescriptor, CommitAndDescriptorView, ModuleResolver};

verus! {

/// `n` names one of the modules.
pub open spec fn is_resolved(mods: Seq<ModuleView>, n: Seq<char>) -> bool {
    exists|i: int| 0 <= i < mods.len() && #[trigger] mods[i].name == n
}

/// No two modules have the same name.
pub open spec fn names_distinct(mods: Seq<ModuleView>) -> bool {
    forall|i: int, j: int| 0 <= i < j < mods.len() ==> #[trigger] mods[i].name != #[trigger] mods[j].name
}

/// The module was resolved from the first of the root's dependencies with its name.
pub open spec fn from_first_root(roots: Seq<DependencyView>, m: ModuleView) -> bool {
    exists|f: int|
        0 <= f < roots.len() && #[trigger] roots[f].name == m.name && roots[f].coordinate
            == m.coordinate && roots[f].specification == m.specification && forall|j: int|
            0 <= j < f ==> roots[j].name != m.name
}

/// The root's `k`-th dependency is resolved from the first root dependency with its name.
pub open spec fn root_resolved(roots: Seq<DependencyView>, mods: Seq<ModuleView>, k: int) -> bool {
    exists|i: int|
        0 <= i < mods.len() && #[trigger] mods[i].name == roots[k].name && from_first_root(
            roots,
            mods[i],
        )
}

/// Every edge, of the root or of a module, leads to a module of the graph.
pub open spec fn closed_graph(roots: Seq<EdgeView>, mods: Seq<ModuleView>) -> bool {
    &&& forall|k: int| 0 <= k < roots.len() ==> is_resolved(mods, #[trigger] roots[k].name)
    &&& forall|i: int, j: int|
        0 <= i < mods.len() && 0 <= j < mods[i].dependencies.len() ==> is_resolved(
            mods,
            #[trigger] mods[i].dependencies[j].name,
        )
}

/// A name that the root gives one of its dependencies, or that some module's edge
/// leads to.
pub open spec fn named(roots: Seq<DependencyView>, mods: Seq<ModuleView>, n: Seq<char>) -> bool {
    ||| exists|k: int| 0 <= k < roots.len() && #[trigger] roots[k].name == n
    ||| exists|i: int, j: int|
        0 <= i < mods.len() && 0 <= j < mods[i].dependencies.len() && #[trigger] mods[i].dependencies[j].name == n
}

/// The module at `i` is reached: it is one of the root's dependencies, or an edge of a
/// module before it leads to it.
pub open spec fn reached_before(roots: Seq<DependencyView>, mods: Seq<ModuleView>, i: int) -> bool {
    ||| exists|k: int| 0 <= k < roots.len() && #[trigger] roots[k].name == mods[i].name
    ||| exists|p: int, j: int|
        0 <= p < i && 0 <= j < mods[p].dependencies.len() && #[trigger] mods[p].dependencies[j].name
            == mods[i].name
}

/// The edge a dependency is: its name and rules.
pub open spec fn edge_of(d: DependencyView) -> EdgeView {
    EdgeView { name: d.name, rules: d.rules }
}

/// The edges some dependencies are.
pub open spec fn edges_of(ds: Seq<DependencyView>) -> Seq<EdgeView> {
    ds.map_values(|d: DependencyView| edge_of(d))
}

/// The lock file entry of a module.
pub open spec fn locked_entry(m: ModuleView) -> LockedDependencyView {
    LockedDependencyView {
        name: m.name,
        coordinate: locked_coordinate(m.coordinate),
        specification: m.specification,
        commit_hash: m.commit_hash,
    }
}

/// The lock file entries of some modules, in their order.
pub open spec fn locked_entries(mods: Seq<ModuleView>) -> Seq<LockedDependencyView> {
    mods.map_values(|m: ModuleView| locked_entry(m))
}

/// What holds of every graph and lock file that `resolve` returns for a descriptor,
/// whatever the resolver answers: the root keeps the descriptor's name and its own
/// edges; each module name occurs once; the root's dependencies are resolved as the
/// root gives them (the first one with each name); every edge leads to a module;
/// every module is reached, from the root or from a module before it; and the lock
/// file has one entry per module, in the same order.
pub open spec fn resolution_laws(
    descriptor: crate::model::protofetch::descriptor::DescriptorView,
    root: super::RootView,
    lock: Seq<LockedDependencyView>,
) -> bool {
    &&& root.name == descriptor.name
    &&& root.dependencies == edges_of(descriptor.dependencies)
    &&& names_distinct(root.modules)
    &&& forall|k: int|
        0 <= k < descriptor.dependencies.len() ==> #[trigger] root_resolved(
            descriptor.dependencies,
            root.modules,
            k,
        )
    &&& closed_graph(root.dependencies, root.modules)
    &&& forall|i: int| 0 <= i < root.modules.len() ==> #[trigger] reached_before(descriptor.dependencies, root.modules, i)
    &&& lock == locked_entries(root.modules)
}

/// A request made to the resolver, and the answer it gave.
pub type Exchange = (DependencyView, CommitAndDescriptorView);

/// The modules are those the answers built, in the order the answers came.
pub open spec fn built_from(mods: Seq<ModuleView>, log: Seq<Exchange>) -> bool {
    &&& mods.len() == log.len()
    &&& forall|i: int| 0 <= i < mods.len() ==> #[trigger] mods[i] == module_of(log[i].0, log[i].1)
}

/// The dependencies met, level after level: the root's own, then those of each answer
/// in the order the answers came.
pub open spec fn met_stream(roots: Seq<DependencyView>, log: Seq<Exchange>) -> Seq<DependencyView>
    decreases log.len(),
{
    if log.len() == 0 {
        roots
    } else {
        met_stream(roots, log.drop_last()) + log.last().1.descriptor.dependencies
    }
}

/// Some lists of dependencies, one after the other.
pub open spec fn flat(c: Seq<Seq<DependencyView>>) -> Seq<DependencyView>
    decreases c.len(),
{
    if c.len() == 0 {
        seq![]
    } else {
        flat(c.drop_last()) + c.last()
    }
}

/// `d` is one of the dependencies of `s`.
pub open spec fn met(s: Seq<DependencyView>, d: DependencyView) -> bool {
    exists|p: int| 0 <= p < s.len() && #[trigger] s[p] == d
}

/// `d` is the first dependency of `s` with its name.
pub open spec fn first_met(s: Seq<DependencyView>, d: DependencyView) -> bool {
    exists|p: int| 0 <= p < s.len() && #[trigger] s[p] == d && forall|q: int| 0 <= q < p ==> #[trigger] s[q].name != d.name
}

/// `d` is in one of some lists.
pub open spec fn in_lists(c: Seq<Seq<DependencyView>>, d: DependencyView) -> bool {
    exists|k: int, m: int| 0 <= k < c.len() && 0 <= m < c[k].len() && #[trigger] c[k][m] == d
}

/// Every requested dependency of every answer log, resolved level by level, is the
/// first one met with its name.
pub open spec fn level_order(roots: Seq<DependencyView>, log: Seq<Exchange>) -> bool {
    forall|i: int| 0 <= i < log.len() ==> first_met(met_stream(roots, log), #[trigger] log[i].0)
}

/// Every requested dependency is one met: one of the root's, or of an answer's.
pub open spec fn requests_met(roots: Seq<DependencyView>, log: Seq<Exchange>) -> bool {
    forall|i: int| 0 <= i < log.len() ==> met(met_stream(roots, log), #[trigger] log[i].0)
}

proof fn lemma_met_grow(s: Seq<DependencyView>, t: Seq<DependencyView>, d: DependencyView)
    ensures
        met(s, d) ==> met(s + t, d),
        first_met(s, d) ==> first_met(s + t, d),
{
    if met(s, d) {
        let p = choose|p: int| 0 <= p < s.len() && #[trigger] s[p] == d;
        assert((s + t)[p] == d);
    }
    if first_met(s, d) {
        let p = choose|p: int| 0 <= p < s.len() && #[trigger] s[p] == d && forall|q: int| 0 <= q < p ==> #[trigger] s[q].name != d.name;
        assert((s + t)[p] == d);
        assert forall|q: int| 0 <= q < p implies #[trigger] (s + t)[q].name != d.name by {
            assert((s + t)[q] == s[q]);
        }
    }
}

proof fn lemma_stream_push(roots: Seq<DependencyView>, log: Seq<Exchange>, e: Exchange)
    ensures
        met_stream(roots, log.push(e)) == met_stream(roots, log) + e.1.descriptor.dependencies,
{
    assert(log.push(e).drop_last() =~= log);
}

proof fn lemma_flat_push(c: Seq<Seq<DependencyView>>, l: Seq<DependencyView>)
    ensures
        flat(c.push(l)) == flat(c) + l,
{
    assert(c.push(l).drop_last() =~= c);
}

/// Every dependency of the work left is one of `st`.
pub open spec fn pending_in(fs: Seq<FrameView>, st: Seq<DependencyView>) -> bool {
    &&& forall|i: int, j: int| 0 <= i < fs.len() && 0 <= j < fs[i].rem.len() ==> met(st, #[trigger] fs[i].rem[j])
    &&& forall|i: int, j: int, m: int|
        0 <= i < fs.len() && 0 <= j < fs[i].coll.len() && 0 <= m < fs[i].coll[j].len() ==> met(
            st,
            #[trigger] fs[i].coll[j][m],
        )
}

/// Level by level, the dependencies met are the `c` handled, then those of the level
/// in progress, then those of the next level; the handled ones are resolved; and each
/// request is the first one met with its name.
pub open spec fn level_state(
    roots: Seq<DependencyView>,
    log: Seq<Exchange>,
    mods: Seq<ModuleView>,
    fs: Seq<FrameView>,
    c: int,
) -> bool {
    let st = met_stream(roots, log);
    &&& 0 <= c <= st.len()
    &&& fs.len() <= 1
    &&& fs.len() == 0 ==> c == st.len()
    &&& fs.len() == 1 ==> st == st.take(c) + fs[0].rem + flat(fs[0].coll)
    &&& forall|q: int| 0 <= q < c ==> is_resolved(mods, #[trigger] st[q].name)
    &&& level_order(roots, log)
}

/// The modules are built from the answers, each request and each dependency still to
/// handle is one met, and level by level each request is the first met with its name.
pub open spec fn tracked_state(
    roots: Seq<DependencyView>,
    log: Seq<Exchange>,
    mods: Seq<ModuleView>,
    fs: Seq<FrameView>,
    c: int,
    breadth_first: bool,
) -> bool {
    &&& built_from(mods, log)
    &&& requests_met(roots, log)
    &&& pending_in(fs, met_stream(roots, log))
    &&& breadth_first ==> level_state(roots, log, mods, fs, c)
}

/// Recording an answer for the first dependency of the level in progress keeps the
/// record of the answers.
proof fn lemma_record_tracked(
    roots: Seq<DependencyView>,
    log: Seq<Exchange>,
    mods0: Seq<ModuleView>,
    fs0: Seq<FrameView>,
    c: int,
    breadth_first: bool,
    av: CommitAndDescriptorView,
)
    requires
        tracked_state(roots, log, mods0, fs0, c, breadth_first),
        fs0.len() > 0,
        fs0.last().rem.len() > 0,
        !is_resolved(mods0, fs0.last().rem[0].name),
    ensures
        tracked_state(
            roots,
            log.push((fs0.last().rem[0], av)),
            mods0.push(module_of(fs0.last().rem[0], av)),
            fs0.drop_last().push(
                FrameView { rem: fs0.last().rem.drop_first(), coll: fs0.last().coll.push(av.descriptor.dependencies) },
            ),
            c + 1,
            breadth_first,
        ),
{
    let t = fs0.len() - 1;
    let d = fs0.last().rem[0];
    let e = (d, av);
    let log1 = log.push(e);
    let mods1 = mods0.push(module_of(d, av));
    let cv = av.descriptor.dependencies;
    let old_top = fs0.last();
    let new_top = FrameView { rem: old_top.rem.drop_first(), coll: old_top.coll.push(cv) };
    let fs1 = fs0.drop_last().push(new_top);
    let st = met_stream(roots, log);
    let st1 = met_stream(roots, log1);
    lemma_stream_push(roots, log, e);
    assert(st1 == st + cv);
    assert(met(st, d)) by {
        assert(fs0[t].rem[0] == d);
    }
    assert forall|x: DependencyView| met(st, x) implies met(st1, x) by {
        lemma_met_grow(st, cv, x);
    }
    assert forall|i: int| 0 <= i < mods1.len() implies #[trigger] mods1[i] == module_of(log1[i].0, log1[i].1) by {
        if i < mods0.len() {
            assert(mods1[i] == mods0[i]);
            assert(log1[i] == log[i]);
        }
    }
    assert forall|i: int| 0 <= i < log1.len() implies met(st1, #[trigger] log1[i].0) by {
        if i < log.len() {
            assert(log1[i] == log[i]);
            assert(met(st, log[i].0));
        }
    }
    assert forall|i: int, j: int| 0 <= i < fs1.len() && 0 <= j < fs1[i].rem.len() implies met(st1, #[trigger] fs1[i].rem[j]) by {
        if i < t {
            assert(fs1[i] == fs0[i]);
            assert(met(st, fs0[i].rem[j]));
        } else {
            assert(fs1[i].rem[j] == fs0[t].rem[j + 1]);
            assert(met(st, fs0[t].rem[j + 1]));
        }
    }
    assert forall|i: int, j: int, m: int|
        0 <= i < fs1.len() && 0 <= j < fs1[i].coll.len() && 0 <= m < fs1[i].coll[j].len() implies met(
            st1,
            #[trigger] fs1[i].coll[j][m],
        ) by {
        if i < t {
            assert(fs1[i] == fs0[i]);
            assert(met(st, fs0[i].coll[j][m]));
        } else if j < old_top.coll.len() {
            assert(fs1[i].coll[j] == fs0[t].coll[j]);
            assert(met(st, fs0[t].coll[j][m]));
        } else {
            assert(fs1[i].coll[j][m] == st1[st.len() + m]);
        }
    }
    assert forall|n: Seq<char>| #[trigger] is_resolved(mods1, n) == (is_resolved(mods0, n) || d.name == n) by {
        lemma_is_resolved_push(mods0, module_of(d, av), n);
    }
    if breadth_first {
        assert(t == 0);
        assert(st == st.take(c) + old_top.rem + flat(old_top.coll));
        assert(st[c] == d);
        lemma_flat_push(old_top.coll, cv);
        assert(st1.take(c + 1) =~= st.take(c).push(d));
        assert(st1 =~= st1.take(c + 1) + fs1[0].rem + flat(fs1[0].coll));
        assert forall|q: int| 0 <= q < c + 1 implies is_resolved(mods1, #[trigger] st1[q].name) by {
            assert(st1[q] == st[q]);
            if q < c {
                assert(is_resolved(mods0, st[q].name));
            }
        }
        assert forall|i: int| 0 <= i < log1.len() implies first_met(st1, #[trigger] log1[i].0) by {
            if i < log.len() {
                assert(log1[i] == log[i]);
                assert(first_met(st, log[i].0));
                lemma_met_grow(st, cv, log[i].0);
            } else {
                assert(st1[c] == d);
                assert forall|q: int| 0 <= q < c implies #[trigger] st1[q].name != d.name by {
                    assert(st1[q] == st[q]);
                    assert(is_resolved(mods0, st[q].name));
                }
            }
        }
    }
}

proof fn lemma_flat_in_lists(c: Seq<Seq<DependencyView>>, p: int)
    requires
        0 <= p < flat(c).len(),
    ensures
        in_lists(c, flat(c)[p]),
    decreases c.len(),
{
    let f = flat(c.drop_last());
    if p < f.len() {
        lemma_flat_in_lists(c.drop_last(), p);
        let (k, m) = choose|k: int, m: int|
            0 <= k < c.drop_last().len() && 0 <= m < c.drop_last()[k].len() && #[trigger] c.drop_last()[k][m] == f[p];
        assert(c[k][m] == flat(c)[p]);
    } else {
        let k = c.len() - 1;
        assert(c[k][p - f.len()] == flat(c)[p]);
    }
}

/// Once a finished level is dropped and levels drawn from its lists are added, the
/// work left is still made of dependencies met.
proof fn lemma_pending_after_level(fs0: Seq<FrameView>, fs1: Seq<FrameView>, st: Seq<DependencyView>)
    requires
        pending_in(fs0, st),
        fs0.len() > 0,
        fs0.len() - 1 <= fs1.len(),
        forall|i: int| 0 <= i < fs0.len() - 1 ==> #[trigger] fs1[i] == fs0[i],
        forall|i: int, j: int|
            fs0.len() - 1 <= i < fs1.len() && 0 <= j < fs1[i].rem.len() ==> in_lists(fs0.last().coll, #[trigger] fs1[i].rem[j]),
        forall|i: int| fs0.len() - 1 <= i < fs1.len() ==> #[trigger] fs1[i].coll.len() == 0,
    ensures
        pending_in(fs1, st),
{
    let t = fs0.len() - 1;
    assert forall|i: int, j: int| 0 <= i < fs1.len() && 0 <= j < fs1[i].rem.len() implies met(st, #[trigger] fs1[i].rem[j]) by {
        if i < t {
            assert(fs1[i] == fs0[i]);
        } else {
            let (k, m) = choose|k: int, m: int|
                0 <= k < fs0.last().coll.len() && 0 <= m < fs0.last().coll[k].len() && #[trigger] fs0.last().coll[k][m] == fs1[i].rem[j];
            assert(fs0[t].coll[k][m] == fs1[i].rem[j]);
        }
    }
    assert forall|i: int, j: int, m: int|
        0 <= i < fs1.len() && 0 <= j < fs1[i].coll.len() && 0 <= m < fs1[i].coll[j].len() implies met(
            st,
            #[trigger] fs1[i].coll[j][m],
        ) by {
        if i < t {
            assert(fs1[i] == fs0[i]);
        } else {
            assert(fs1[i].coll.len() == 0);
        }
    }
}

/// Names of some dependencies.
pub open spec fn dep_names(s: Seq<DependencyView>) -> Set<Seq<char>> {
    s.map_values(|d: DependencyView| d.name).to_set()
}

/// Names in some lists of dependencies.
pub open spec fn coll_names(c: Seq<Seq<DependencyView>>) -> Set<Seq<char>>
    decreases c.len(),
{
    if c.len() == 0 {
        Set::empty()
    } else {
        coll_names(c.drop_last()).union(dep_names(c.last()))
    }
}

/// Work left at one level: dependencies still to resolve, and the dependency lists of
/// the modules resolved at this level, to visit afterwards.
pub struct FrameView {
    pub rem: Seq<DependencyView>,
    pub coll: Seq<Seq<DependencyView>>,
}

/// Lists of dependencies to visit one after the other, the first one on top.
pub open spec fn frames_of(c: Seq<Seq<DependencyView>>) -> Seq<FrameView> {
    Seq::new(c.len(), |k: int| FrameView { rem: c[c.len() - 1 - k], coll: seq![] })
}

/// The frame of the root's own dependencies.
pub open spec fn start_frames(roots: Seq<DependencyView>) -> Seq<FrameView> {
    seq![FrameView { rem: roots, coll: seq![] }]
}

/// The names resolved among some modules.
pub open spec fn known_names(mods: Seq<ModuleView>) -> Set<Seq<char>> {
    Set::new(|n: Seq<char>| is_resolved(mods, n))
}

/// The dependencies visited, depth first, from some frames of dependencies still to
/// visit (the last on top), with the names `known` already resolved and `ans` giving
/// the dependencies of the answer for each name: the dependencies of the top frame in
/// their order, each one not yet known being resolved and its answer's dependencies
/// kept; once the frame is done, each list kept, in order, is visited the same way,
/// before the frames below. `fuel` bounds the number of steps.
pub open spec fn dfs_walk(
    fs: Seq<FrameView>,
    known: Set<Seq<char>>,
    ans: Map<Seq<char>, Seq<DependencyView>>,
    fuel: nat,
) -> Seq<DependencyView>
    decreases fuel,
{
    if fuel == 0 || fs.len() == 0 {
        seq![]
    } else {
        let top = fs.last();
        if top.rem.len() == 0 {
            dfs_walk(fs.drop_last() + frames_of(top.coll), known, ans, (fuel - 1) as nat)
        } else {
            let d = top.rem[0];
            if known.contains(d.name) {
                seq![d] + dfs_walk(
                    fs.drop_last().push(FrameView { rem: top.rem.drop_first(), coll: top.coll }),
                    known,
                    ans,
                    (fuel - 1) as nat,
                )
            } else {
                seq![d] + dfs_walk(
                    fs.drop_last().push(FrameView { rem: top.rem.drop_first(), coll: top.coll.push(ans[d.name]) }),
                    known.insert(d.name),
                    ans,
                    (fuel - 1) as nat,
                )
            }
        }
    }
}

/// `ans` gives, for each request of the record, the dependencies of its answer.
pub open spec fn agrees(ans: Map<Seq<char>, Seq<DependencyView>>, log: Seq<Exchange>) -> bool {
    forall|i: int|
        0 <= i < log.len() ==> ans.contains_key(#[trigger] log[i].0.name) && ans[log[i].0.name]
            == log[i].1.descriptor.dependencies
}

/// The dependencies of the answer for each name requested in a record.
pub open spec fn answers_of(log: Seq<Exchange>) -> Map<Seq<char>, Seq<DependencyView>> {
    Map::new(
        |n: Seq<char>| exists|i: int| 0 <= i < log.len() && #[trigger] log[i].0.name == n,
        |n: Seq<char>| log[choose|i: int| 0 <= i < log.len() && #[trigger] log[i].0.name == n].1.descriptor.dependencies,
    )
}

/// Depth first, each request of the record is the first dependency visited with its
/// name, the answers being those of the record: of several dependencies with one name,
/// the first one reached wins, however deep.
pub open spec fn depth_order(roots: Seq<DependencyView>, log: Seq<Exchange>) -> bool {
    exists|fuel: nat| #[trigger] walk_first(dfs_walk(start_frames(roots), Set::empty(), answers_of(log), fuel), log)
}

/// Each request of the record is the first dependency of `walk` with its name.
pub open spec fn walk_first(walk: Seq<DependencyView>, log: Seq<Exchange>) -> bool {
    forall|i: int| 0 <= i < log.len() ==> first_met(walk, #[trigger] log[i].0)
}

/// From the start, the walk is the dependencies visited, then the walk from the frames
/// left, for any answers that agree with the record, `steps` steps having been taken.
spec fn walk_from(
    roots: Seq<DependencyView>,
    seen: Seq<DependencyView>,
    steps: nat,
    fs: Seq<FrameView>,
    known: Set<Seq<char>>,
    log: Seq<Exchange>,
) -> bool {
    forall|ans: Map<Seq<char>, Seq<DependencyView>>, fuel: nat|
        #![trigger agrees(ans, log), dfs_walk(fs, known, ans, fuel)]
        agrees(ans, log) ==> dfs_walk(start_frames(roots), Set::empty(), ans, fuel + steps) == seen + dfs_walk(
            fs,
            known,
            ans,
            fuel,
        )
}

proof fn lemma_walk_pop(
    roots: Seq<DependencyView>,
    seen: Seq<DependencyView>,
    steps: nat,
    fs: Seq<FrameView>,
    known: Set<Seq<char>>,
    log: Seq<Exchange>,
)
    requires
        walk_from(roots, seen, steps, fs, known, log),
        fs.len() > 0,
        fs.last().rem.len() == 0,
    ensures
        walk_from(roots, seen, steps + 1, fs.drop_last() + frames_of(fs.last().coll), known, log),
{
    let fs2 = fs.drop_last() + frames_of(fs.last().coll);
    assert forall|ans: Map<Seq<char>, Seq<DependencyView>>, fuel: nat|
        #![trigger agrees(ans, log), dfs_walk(fs2, known, ans, fuel)]
        agrees(ans, log) implies dfs_walk(start_frames(roots), Set::empty(), ans, fuel + (steps + 1)) == seen
            + dfs_walk(fs2, known, ans, fuel) by {
        assert(dfs_walk(fs, known, ans, fuel + 1) == dfs_walk(fs2, known, ans, fuel));
        assert((fuel + 1) + steps == fuel + (steps + 1));
    }
}

proof fn lemma_walk_skip(
    roots: Seq<DependencyView>,
    seen: Seq<DependencyView>,
    steps: nat,
    fs: Seq<FrameView>,
    known: Set<Seq<char>>,
    log: Seq<Exchange>,
)
    requires
        walk_from(roots, seen, steps, fs, known, log),
        fs.len() > 0,
        fs.last().rem.len() > 0,
        known.contains(fs.last().rem[0].name),
    ensures
        walk_from(
            roots,
            seen.push(fs.last().rem[0]),
            steps + 1,
            fs.drop_last().push(FrameView { rem: fs.last().rem.drop_first(), coll: fs.last().coll }),
            known,
            log,
        ),
{
    let d = fs.last().rem[0];
    let fs2 = fs.drop_last().push(FrameView { rem: fs.last().rem.drop_first(), coll: fs.last().coll });
    assert forall|ans: Map<Seq<char>, Seq<DependencyView>>, fuel: nat|
        #![trigger agrees(ans, log), dfs_walk(fs2, known, ans, fuel)]
        agrees(ans, log) implies dfs_walk(start_frames(roots), Set::empty(), ans, fuel + (steps + 1))
            == seen.push(d) + dfs_walk(fs2, known, ans, fuel) by {
        assert(dfs_walk(fs, known, ans, fuel + 1) == seq![d] + dfs_walk(fs2, known, ans, fuel));
        assert((fuel + 1) + steps == fuel + (steps + 1));
        assert(seen + (seq![d] + dfs_walk(fs2, known, ans, fuel)) =~= seen.push(d) + dfs_walk(fs2, known, ans, fuel));
    }
}

proof fn lemma_walk_take(
    roots: Seq<DependencyView>,
    seen: Seq<DependencyView>,
    steps: nat,
    fs: Seq<FrameView>,
    known: Set<Seq<char>>,
    log: Seq<Exchange>,
    a: CommitAndDescriptorView,
)
    requires
        walk_from(roots, seen, steps, fs, known, log),
        fs.len() > 0,
        fs.last().rem.len() > 0,
        !known.contains(fs.last().rem[0].name),
    ensures
        walk_from(
            roots,
            seen.push(fs.last().rem[0]),
            steps + 1,
            fs.drop_last().push(
                FrameView { rem: fs.last().rem.drop_first(), coll: fs.last().coll.push(a.descriptor.dependencies) },
            ),
            known.insert(fs.last().rem[0].name),
            log.push((fs.last().rem[0], a)),
        ),
{
    let d = fs.last().rem[0];
    let log2 = log.push((d, a));
    let k2 = known.insert(d.name);
    let fs2 = fs.drop_last().push(
        FrameView { rem: fs.last().rem.drop_first(), coll: fs.last().coll.push(a.descriptor.dependencies) },
    );
    assert forall|ans: Map<Seq<char>, Seq<DependencyView>>, fuel: nat|
        #![trigger agrees(ans, log2), dfs_walk(fs2, k2, ans, fuel)]
        agrees(ans, log2) implies dfs_walk(start_frames(roots), Set::empty(), ans, fuel + (steps + 1))
            == seen.push(d) + dfs_walk(fs2, k2, ans, fuel) by {
        assert(agrees(ans, log)) by {
            assert forall|i: int| 0 <= i < log.len() implies ans.contains_key(#[trigger] log[i].0.name) && ans[log[i].0.name]
                == log[i].1.descriptor.dependencies by {
                assert(log2[i] == log[i]);
            }
        }
        assert(log2[log.len() as int] == (d, a));
        assert(ans.contains_key(log2[log.len() as int].0.name));
        assert(ans[d.name] == a.descriptor.dependencies);
        assert(dfs_walk(fs, known, ans, fuel + 1) == seq![d] + dfs_walk(fs2, k2, ans, fuel));
        assert((fuel + 1) + steps == fuel + (steps + 1));
        assert(seen + (seq![d] + dfs_walk(fs2, k2, ans, fuel)) =~= seen.push(d) + dfs_walk(fs2, k2, ans, fuel));
    }
}

/// Names still to be met in some frames.
pub open spec fn stack_names(fs: Seq<FrameView>) -> Set<Seq<char>>
    decreases fs.len(),
{
    if fs.len() == 0 {
        Set::empty()
    } else {
        stack_names(fs.drop_last()).union(dep_names(fs.last().rem)).union(
            coll_names(fs.last().coll),
        )
    }
}

/// Amount of work left in some lists.
pub open spec fn coll_weight(c: Seq<Seq<DependencyView>>) -> nat
    decreases c.len(),
{
    if c.len() == 0 {
        0
    } else {
        coll_weight(c.drop_last()) + c.last().len() + 1
    }
}

/// Amount of work left in some frames.
pub open spec fn stack_weight(fs: Seq<FrameView>) -> nat
    decreases fs.len(),
{
    if fs.len() == 0 {
        0
    } else {
        stack_weight(fs.drop_last()) + fs.last().rem.len() + coll_weight(fs.last().coll) + 1
    }
}

struct Frame {
    deps: Vec<Dependency>,
    next: usize,
    children: Vec<Vec<Dependency>>,
}

spec fn list_views(c: Seq<Vec<Dependency>>) -> Seq<Seq<DependencyView>> {
    c.map_values(|v: Vec<Dependency>| dependency_views(v@))
}

spec fn frame_view(f: Frame) -> FrameView {
    FrameView { rem: dependency_views(f.deps@).skip(f.next as int), coll: list_views(f.children@) }
}

spec fn frames_view(fs: Seq<Frame>) -> Seq<FrameView> {
    fs.map_values(|f: Frame| frame_view(f))
}

spec fn frames_wf(fs: Seq<Frame>) -> bool {
    forall|i: int| 0 <= i < fs.len() ==> #[trigger] fs[i].next <= fs[i].deps@.len()
}

/// A name is resolved, or still to be met.
spec fn accounted(mods: Seq<ModuleView>, fs: Seq<FrameView>, n: Seq<char>) -> bool {
    is_resolved(mods, n) || stack_names(fs).contains(n)
}

spec fn all_accounted(roots: Seq<DependencyView>, mods: Seq<ModuleView>, fs: Seq<FrameView>) -> bool {
    &&& forall|k: int| 0 <= k < roots.len() ==> accounted(mods, fs, #[trigger] roots[k].name)
    &&& forall|i: int, j: int|
        0 <= i < mods.len() && 0 <= j < mods[i].dependencies.len() ==> accounted(
            mods,
            fs,
            #[trigger] mods[i].dependencies[j].name,
        )
}

/// The state of a resolution in progress.
struct Resolution {
    roots: Ghost<Seq<DependencyView>>,
    log: Ghost<Seq<Exchange>>,
    processed: Ghost<int>,
    root_phase: Ghost<bool>,
    consumed: Ghost<int>,
    seen: Ghost<Seq<DependencyView>>,
    steps: Ghost<nat>,
    breadth_first: bool,
    modules: Vec<ResolvedModule>,
    frames: Vec<Frame>,
}

impl Resolution {
    spec fn mods(&self) -> Seq<ModuleView> {
        module_views(self.modules@)
    }

    spec fn fs(&self) -> Seq<FrameView> {
        frames_view(self.frames@)
    }

    /// The modules are built from the answers, each request is a dependency met, and
    /// level by level each request is the first one met with its name.
    spec fn tracked_ok(&self) -> bool {
        tracked_state(self.roots@, self.log@, self.mods(), self.fs(), self.processed@, self.breadth_first)
    }

    /// Depth first, the dependencies visited so far and the walk from the frames left
    /// make up the walk from the start; each request is the first dependency visited
    /// with its name; and the names visited are resolved.
    spec fn walk_ok(&self) -> bool {
        !self.breadth_first ==> {
            &&& walk_from(self.roots@, self.seen@, self.steps@, self.fs(), known_names(self.mods()), self.log@)
            &&& walk_first(self.seen@, self.log@)
            &&& forall|j: int| 0 <= j < self.seen@.len() ==> is_resolved(self.mods(), #[trigger] self.seen@[j].name)
        }
    }

    spec fn inv(&self) -> bool {
        let roots = self.roots@;
        let mods = self.mods();
        let fs = self.fs();
        &&& frames_wf(self.frames@)
        &&& names_distinct(mods)
        &&& all_accounted(roots, mods, fs)
        &&& forall|n: Seq<char>| #[trigger] stack_names(fs).contains(n) ==> named(roots, mods, n)
        &&& forall|i: int| 0 <= i < mods.len() ==> #[trigger] reached_before(roots, mods, i)
        &&& self.root_phase@ ==> {
            &&& fs.len() == 1
            &&& 0 <= self.consumed@ <= roots.len()
            &&& fs[0].rem == roots.skip(self.consumed@)
            &&& forall|k: int| 0 <= k < self.consumed@ ==> is_resolved(mods, #[trigger] roots[k].name)
            &&& forall|i: int| 0 <= i < mods.len() ==> from_first_root(roots, #[trigger] mods[i])
        }
        &&& !self.root_phase@ ==> forall|k: int| 0 <= k < roots.len() ==> #[trigger] root_resolved(roots, mods, k)
    }
}

proof fn lemma_dep_names_first(s: Seq<DependencyView>)
    requires
        s.len() > 0,
    ensures
        dep_names(s) == dep_names(s.drop_first()).insert(s[0].name),
{
    let a = s.map_values(|d: DependencyView| d.name);
    let b = s.drop_first().map_values(|d: DependencyView| d.name);
    assert(a =~= seq![s[0].name] + b);
    assert(dep_names(s) =~= dep_names(s.drop_first()).insert(s[0].name)) by {
        assert forall|x: Seq<char>| a.to_set().contains(x) implies b.to_set().insert(s[0].name).contains(x) by {
            let i = choose|i: int| 0 <= i < a.len() && a[i] == x;
            if i > 0 {
                assert(b[i - 1] == x);
            }
        }
        assert forall|x: Seq<char>| b.to_set().insert(s[0].name).contains(x) implies a.to_set().contains(x) by {
            if x == s[0].name {
                assert(a[0] == x);
            } else {
                let i = choose|i: int| 0 <= i < b.len() && b[i] == x;
                assert(a[i + 1] == x);
            }
        }
    }
}

proof fn lemma_dep_names_index(s: Seq<DependencyView>, j: int)
    requires
        0 <= j < s.len(),
    ensures
        dep_names(s).contains(s[j].name),
{
    let a = s.map_values(|d: DependencyView| d.name);
    assert(a[j] == s[j].name);
}

proof fn lemma_stack_push(fs: Seq<FrameView>, f: FrameView)
    ensures
        stack_names(fs.push(f)) == stack_names(fs).union(dep_names(f.rem)).union(coll_names(f.coll)),
        stack_weight(fs.push(f)) == stack_weight(fs) + f.rem.len() + coll_weight(f.coll) + 1,
{
    assert(fs.push(f).drop_last() =~= fs);
}

proof fn lemma_coll_push(c: Seq<Seq<DependencyView>>, l: Seq<DependencyView>)
    ensures
        coll_names(c.push(l)) == coll_names(c).union(dep_names(l)),
        coll_weight(c.push(l)) == coll_weight(c) + l.len() + 1,
{
    assert(c.push(l).drop_last() =~= c);
}

proof fn lemma_is_resolved_push(mods: Seq<ModuleView>, m: ModuleView, n: Seq<char>)
    ensures
        is_resolved(mods.push(m), n) == (is_resolved(mods, n) || m.name == n),
{
    if is_resolved(mods, n) {
        let i = choose|i: int| 0 <= i < mods.len() && #[trigger] mods[i].name == n;
        assert(mods.push(m)[i].name == n);
    }
    if m.name == n {
        assert(mods.push(m)[mods.len() as int].name == n);
    }
    if is_resolved(mods.push(m), n) {
        let i = choose|i: int| 0 <= i < mods.len() + 1 && #[trigger] mods.push(m)[i].name == n;
        if i < mods.len() {
            assert(mods[i].name == n);
        }
    }
}

proof fn lemma_all_accounted_keep(
    roots: Seq<DependencyView>,
    mods: Seq<ModuleView>,
    fs: Seq<FrameView>,
    fs2: Seq<FrameView>,
)
    requires
        all_accounted(roots, mods, fs),
        forall|n: Seq<char>| accounted(mods, fs, n) ==> #[trigger] accounted(mods, fs2, n),
    ensures
        all_accounted(roots, mods, fs2),
{
    assert forall|k: int| 0 <= k < roots.len() implies accounted(mods, fs2, #[trigger] roots[k].name) by {
        assert(accounted(mods, fs, roots[k].name));
    }
    assert forall|i: int, j: int|
        0 <= i < mods.len() && 0 <= j < mods[i].dependencies.len() implies accounted(
            mods,
            fs2,
            #[trigger] mods[i].dependencies[j].name,
        ) by {
        assert(accounted(mods, fs, mods[i].dependencies[j].name));
    }
}

proof fn lemma_dep_names_concat(a: Seq<DependencyView>, b: Seq<DependencyView>)
    ensures
        dep_names(a + b) == dep_names(a).union(dep_names(b)),
{
    let f = |d: DependencyView| d.name;
    assert((a + b).map_values(f) =~= a.map_values(f) + b.map_values(f));
    vstd::seq_lib::seq_to_set_distributes_over_add(a.map_values(f), b.map_values(f));
}

impl Resolution {
    /// Each list becomes a level of its own; the first list is visited first.
    fn push_each(&mut self, children: Vec<Vec<Dependency>>)
        requires
            frames_wf(old(self).frames@),
        ensures
            frames_wf(final(self).frames@),
            final(self).log@ == old(self).log@,
            final(self).processed@ == old(self).processed@,
            old(self).fs().len() <= final(self).fs().len(),
            forall|i: int| 0 <= i < old(self).fs().len() ==> #[trigger] final(self).fs()[i] == old(self).fs()[i],
            forall|i: int, j: int|
                old(self).fs().len() <= i < final(self).fs().len() && 0 <= j < final(self).fs()[i].rem.len()
                    ==> in_lists(list_views(children@), #[trigger] final(self).fs()[i].rem[j]),
            forall|i: int|
                old(self).fs().len() <= i < final(self).fs().len() ==> #[trigger] final(self).fs()[i].coll.len() == 0,
            final(self).roots@ == old(self).roots@,
            final(self).root_phase@ == old(self).root_phase@,
            final(self).consumed@ == old(self).consumed@,
            final(self).breadth_first == old(self).breadth_first,
            final(self).modules@ == old(self).modules@,
            stack_names(final(self).fs()) == stack_names(old(self).fs()).union(
                coll_names(list_views(children@)),
            ),
            stack_weight(final(self).fs()) <= stack_weight(old(self).fs()) + coll_weight(
                list_views(children@),
            ),
            final(self).fs() == old(self).fs() + frames_of(list_views(children@)),
            final(self).seen@ == old(self).seen@,
            final(self).steps@ == old(self).steps@,
    {
        let ghost start = self.fs();
        let ghost all = list_views(children@);
        let mut children = children;
        while children.len() > 0
            invariant
                frames_wf(self.frames@),
                self.roots@ == old(self).roots@,
                self.root_phase@ == old(self).root_phase@,
                self.consumed@ == old(self).consumed@,
                self.breadth_first == old(self).breadth_first,
                self.modules@ == old(self).modules@,
                self.log@ == old(self).log@,
                self.processed@ == old(self).processed@,
                list_views(children@) == all.take(children@.len() as int),
                children@.len() <= all.len(),
                start.len() <= self.fs().len(),
                forall|i: int| 0 <= i < start.len() ==> #[trigger] self.fs()[i] == start[i],
                forall|i: int, j: int|
                    start.len() <= i < self.fs().len() && 0 <= j < self.fs()[i].rem.len()
                        ==> in_lists(all, #[trigger] self.fs()[i].rem[j]),
                forall|i: int| start.len() <= i < self.fs().len() ==> #[trigger] self.fs()[i].coll.len() == 0,
                stack_names(self.fs()).union(coll_names(list_views(children@))) == stack_names(
                    start,
                ).union(coll_names(all)),
                stack_weight(self.fs()) + coll_weight(list_views(children@)) == stack_weight(start)
                    + coll_weight(all),
                self.fs() == start + frames_of(all).take(all.len() - children@.len()),
                self.seen@ == old(self).seen@,
                self.steps@ == old(self).steps@,
            decreases children.len(),
        {
            let ghost before = self.fs();
            let ghost cv = list_views(children@);
            let c = children.pop().unwrap();
            proof {
                assert(list_views(children@) =~= cv.drop_last());
                assert(cv.last() == dependency_views(c@));
                assert(cv =~= cv.drop_last().push(cv.last()));
                lemma_coll_push(cv.drop_last(), cv.last());
            }
            self.frames.push(Frame { deps: c, next: 0, children: Vec::new() });
            proof {
                let nf = frame_view(self.frames@.last());
                assert(nf.rem =~= dependency_views(c@));
                assert(nf.coll =~= Seq::<Seq<DependencyView>>::empty());
                assert(self.fs() =~= before.push(nf));
                lemma_stack_push(before, nf);
                assert(coll_names(nf.coll) =~= Set::<Seq<char>>::empty());
                assert(stack_names(self.fs()).union(coll_names(list_views(children@)))
                    =~= stack_names(before).union(coll_names(cv)));
                let kk = children@.len() as int;
                assert(all[kk] == cv.last());
                assert(list_views(children@) =~= all.take(kk));
                assert forall|i: int, j: int|
                    start.len() <= i < self.fs().len() && 0 <= j < self.fs()[i].rem.len()
                        implies in_lists(all, #[trigger] self.fs()[i].rem[j]) by {
                    if i < before.len() {
                        assert(self.fs()[i] == before[i]);
                    } else {
                        assert(self.fs()[i].rem[j] == all[kk][j]);
                    }
                }
                assert forall|i: int| start.len() <= i < self.fs().len() implies #[trigger] self.fs()[i].coll.len() == 0 by {
                    if i < before.len() {
                        assert(self.fs()[i] == before[i]);
                    }
                }
                assert forall|i: int| 0 <= i < start.len() implies #[trigger] self.fs()[i] == start[i] by {
                    assert(self.fs()[i] == before[i]);
                }
                let fa = frames_of(all);
                let t = all.len() - children@.len();
                assert(fa[t - 1] == nf);
                assert(fa.take(t) =~= fa.take(t - 1).push(fa[t - 1]));
                assert(self.fs() =~= start + fa.take(t));
            }
        }
        proof {
            assert(frames_of(all).take(all.len() as int) =~= frames_of(all));
            assert(list_views(children@) =~= Seq::<Seq<DependencyView>>::empty());
            assert(stack_names(self.fs()) =~= stack_names(start).union(coll_names(all)));
        }
    }

    /// All lists together become one level, in their order.
    fn push_level(&mut self, children: Vec<Vec<Dependency>>)
        requires
            frames_wf(old(self).frames@),
        ensures
            frames_wf(final(self).frames@),
            final(self).log@ == old(self).log@,
            final(self).processed@ == old(self).processed@,
            children@.len() == 0 ==> final(self).fs() == old(self).fs(),
            children@.len() > 0 ==> final(self).fs() == old(self).fs().push(
                FrameView { rem: flat(list_views(children@)), coll: seq![] },
            ),
            final(self).roots@ == old(self).roots@,
            final(self).root_phase@ == old(self).root_phase@,
            final(self).consumed@ == old(self).consumed@,
            final(self).breadth_first == old(self).breadth_first,
            final(self).modules@ == old(self).modules@,
            stack_names(final(self).fs()) == stack_names(old(self).fs()).union(
                coll_names(list_views(children@)),
            ),
            stack_weight(final(self).fs()) <= stack_weight(old(self).fs()) + coll_weight(
                list_views(children@),
            ),
    {
        let ghost all = list_views(children@);
        if children.len() == 0 {
            assert(all =~= Seq::<Seq<DependencyView>>::empty());
            assert(stack_names(self.fs()) =~= stack_names(self.fs()).union(coll_names(all)));
            return;
        }
        let mut level: Vec<Dependency> = Vec::new();
        let mut i: usize = 0;
        assert(all.take(0) =~= Seq::<Seq<DependencyView>>::empty());
        assert(dependency_views(level@) =~= Seq::<DependencyView>::empty());
        assert(dep_names(Seq::<DependencyView>::empty()) =~= Set::<Seq<char>>::empty());
        while i < children.len()
            invariant
                i <= children.len(),
                all == list_views(children@),
                dep_names(dependency_views(level@)) == coll_names(all.take(i as int)),
                dependency_views(level@) == flat(all.take(i as int)),
                dependency_views(level@).len() + i == coll_weight(all.take(i as int)),
            decreases children.len() - i,
        {
            let ghost lv = dependency_views(level@);
            let mut part = crate::model::protofetch::descriptor::clone_dependencies(&children[i]);
            let ghost pv = dependency_views(part@);
            level.append(&mut part);
            proof {
                assert(dependency_views(level@) =~= lv + pv);
                lemma_dep_names_concat(lv, pv);
                assert(all.take(i + 1) =~= all.take(i as int).push(all[i as int]));
                assert(all[i as int] == pv);
                lemma_coll_push(all.take(i as int), pv);
                lemma_flat_push(all.take(i as int), pv);
            }
            i = i + 1;
        }
        assert(all.take(children.len() as int) =~= all);
        let ghost before = self.fs();
        self.frames.push(Frame { deps: level, next: 0, children: Vec::new() });
        proof {
            let nf = frame_view(self.frames@.last());
            assert(nf.rem =~= dependency_views(level@));
            assert(nf.coll =~= Seq::<Seq<DependencyView>>::empty());
            assert(self.fs() =~= before.push(nf));
            lemma_stack_push(before, nf);
            assert(coll_names(nf.coll) =~= Set::<Seq<char>>::empty());
            assert(stack_names(self.fs()) =~= stack_names(before).union(coll_names(all)));
            assert(nf == FrameView { rem: flat(list_views(children@)), coll: seq![] });
        }
    }
}

impl Resolution {
    /// The start: the root's dependencies to resolve, nothing resolved.
    fn start(descriptor: &Descriptor, breadth_first: bool) -> (r: Resolution)
        ensures
            r.inv(),
            r.tracked_ok(),
            r.log@ == Seq::<Exchange>::empty(),
            r.breadth_first == breadth_first,
            r.roots@ == descriptor@.dependencies,
            r.mods() == Seq::<ModuleView>::empty(),
            r.walk_ok(),
    {
        let deps = crate::model::protofetch::descriptor::clone_dependencies(&descriptor.dependencies);
        let mut frames: Vec<Frame> = Vec::new();
        frames.push(Frame { deps, next: 0, children: Vec::new() });
        let r = Resolution {
            roots: Ghost(descriptor@.dependencies),
            log: Ghost(Seq::empty()),
            processed: Ghost(0),
            root_phase: Ghost(true),
            consumed: Ghost(0),
            seen: Ghost(Seq::empty()),
            steps: Ghost(0),
            breadth_first,
            modules: Vec::new(),
            frames,
        };
        proof {
            let fs = r.fs();
            assert(fs.len() == 1);
            assert(fs[0].rem =~= r.roots@.skip(0));
            assert(r.mods() =~= Seq::<ModuleView>::empty());
            assert(fs[0].coll =~= Seq::<Seq<DependencyView>>::empty());
            assert(fs =~= Seq::<FrameView>::empty().push(fs[0]));
            lemma_stack_push(Seq::<FrameView>::empty(), fs[0]);
            assert forall|k: int| 0 <= k < r.roots@.len() implies accounted(
                r.mods(),
                fs,
                #[trigger] r.roots@[k].name,
            ) by {
                lemma_dep_names_index(fs[0].rem, k);
            }
            let st = met_stream(r.roots@, r.log@);
            assert(st == r.roots@);
            assert forall|i: int, j: int| 0 <= i < fs.len() && 0 <= j < fs[i].rem.len() implies met(st, #[trigger] fs[i].rem[j]) by {
                assert(st[j] == fs[i].rem[j]);
            }
            assert(flat(fs[0].coll) =~= Seq::<DependencyView>::empty());
            assert(st =~= st.take(0) + fs[0].rem + flat(fs[0].coll));
            assert(fs =~= start_frames(r.roots@));
            assert(known_names(r.mods()) =~= Set::<Seq<char>>::empty());
            assert forall|ans: Map<Seq<char>, Seq<DependencyView>>, fuel: nat|
                #![trigger agrees(ans, r.log@), dfs_walk(fs, known_names(r.mods()), ans, fuel)]
                agrees(ans, r.log@) implies dfs_walk(start_frames(r.roots@), Set::empty(), ans, fuel + r.steps@)
                    == r.seen@ + dfs_walk(fs, known_names(r.mods()), ans, fuel) by {
                assert(r.seen@ + dfs_walk(fs, known_names(r.mods()), ans, fuel) =~= dfs_walk(fs, known_names(r.mods()), ans, fuel));
            }
        }
        r
    }

    /// Whether a module with that name is resolved.
    fn has_module(&self, name: &ModuleName) -> (r: bool)
        ensures
            r == is_resolved(self.mods(), name@),
    {
        let mut i: usize = 0;
        while i < self.modules.len()
            invariant
                i <= self.modules.len(),
                forall|k: int| 0 <= k < i ==> self.mods()[k].name != name@,
            decreases self.modules.len() - i,
        {
            if self.modules[i].name.same(name) {
                assert(self.mods()[i as int].name == name@);
                return true;
            }
            i = i + 1;
        }
        false
    }

    /// Leaves out the dependencies already resolved and the finished levels, up to the
    /// next dependency to resolve; returns it, or nothing when all work is done.
    fn next_request(&mut self) -> (r: Option<Dependency>)
        requires
            old(self).inv(),
            old(self).tracked_ok(),
            old(self).walk_ok(),
        ensures
            final(self).inv(),
            final(self).tracked_ok(),
            final(self).walk_ok(),
            final(self).log@ == old(self).log@,
            final(self).breadth_first == old(self).breadth_first,
            final(self).roots@ == old(self).roots@,
            final(self).modules@ == old(self).modules@,
            match r {
                None => final(self).fs().len() == 0,
                Some(d) => {
                    &&& final(self).fs().len() > 0
                    &&& final(self).fs().last().rem.len() > 0
                    &&& final(self).fs().last().rem[0] == d@
                    &&& !is_resolved(final(self).mods(), d@.name)
                },
            },
    {
        loop
            invariant
                self.inv(),
                self.tracked_ok(),
                self.walk_ok(),
                self.log@ == old(self).log@,
                self.breadth_first == old(self).breadth_first,
                self.roots@ == old(self).roots@,
                self.modules@ == old(self).modules@,
            decreases stack_weight(self.fs()),
        {
            if self.frames.len() == 0 {
                return None;
            }
            let last = self.frames.len() - 1;
            let ghost fs0 = self.fs();
            let ghost frames0 = self.frames@;
            let ghost mods = self.mods();
            let ghost roots = self.roots@;
            assert(fs0.last() == frame_view(self.frames@[last as int]));
            if self.frames[last].next >= self.frames[last].deps.len() {
                let top = self.frames.pop().unwrap();
                let ghost rest = self.fs();
                proof {
                    assert(rest =~= fs0.drop_last());
                    assert(frame_view(top).rem.len() == 0);
                    assert(dep_names(frame_view(top).rem) =~= Set::<Seq<char>>::empty());
                    if self.root_phase@ {
                        assert(self.consumed@ == roots.len()) by {
                            assert(roots.skip(self.consumed@).len() == 0);
                        }
                        assert forall|k: int| 0 <= k < roots.len() implies #[trigger] root_resolved(
                            roots,
                            mods,
                            k,
                        ) by {
                            assert(is_resolved(mods, roots[k].name));
                            let i = choose|i: int| 0 <= i < mods.len() && #[trigger] mods[i].name == roots[k].name;
                            assert(from_first_root(roots, mods[i]));
                        }
                    }
                    self.root_phase@ = false;
                }
                let ghost topv = frame_view(top);
                let children = top.children;
                if self.breadth_first {
                    self.push_level(children);
                } else {
                    self.push_each(children);
                }
                proof {
                    let st = met_stream(roots, self.log@);
                    let c = self.processed@;
                    let fs1 = self.fs();
                    assert(topv == fs0.last());
                    assert(list_views(children@) == topv.coll);
                    if self.breadth_first {
                        assert(fs0.len() == 1);
                        assert(fs0[0] == topv);
                        assert(topv.rem =~= Seq::<DependencyView>::empty());
                        assert(st =~= st.take(c) + flat(topv.coll));
                        if children@.len() == 0 {
                            assert(topv.coll =~= Seq::<Seq<DependencyView>>::empty());
                            assert(fs1 == rest);
                        } else {
                            let nf = FrameView { rem: flat(topv.coll), coll: seq![] };
                            assert(fs1 == rest.push(nf));
                            assert(flat(nf.coll) =~= Seq::<DependencyView>::empty());
                            assert(st =~= st.take(c) + fs1[0].rem + flat(fs1[0].coll));
                            assert forall|i: int, j: int|
                                fs0.len() - 1 <= i < fs1.len() && 0 <= j < fs1[i].rem.len() implies in_lists(
                                fs0.last().coll,
                                #[trigger] fs1[i].rem[j],
                            ) by {
                                lemma_flat_in_lists(topv.coll, j);
                            }
                        }
                        lemma_pending_after_level(fs0, fs1, st);
                    } else {
                        lemma_pending_after_level(fs0, fs1, st);
                    }
                }
                proof {
                    assert(fs0 =~= rest.push(frame_view(top)));
                    lemma_stack_push(rest, frame_view(top));
                    assert(stack_names(fs0) =~= stack_names(self.fs()));
                    assert forall|n: Seq<char>| accounted(mods, fs0, n) implies #[trigger] accounted(
                        mods,
                        self.fs(),
                        n,
                    ) by {}
                    lemma_all_accounted_keep(roots, mods, fs0, self.fs());
                }
                proof {
                    if !self.breadth_first {
                        assert(self.fs() == fs0.drop_last() + frames_of(fs0.last().coll));
                        lemma_walk_pop(roots, self.seen@, self.steps@, fs0, known_names(mods), self.log@);
                        self.steps@ = self.steps@ + 1;
                    }
                }
            } else {
                let next = self.frames[last].next;
                let name = self.frames[last].deps[next].name.clone();
                proof {
                    assert(fs0.last().rem[0] == self.frames@[last as int].deps@[next as int]@);
                }
                if self.has_module(&name) {
                    let mut top = self.frames.pop().unwrap();
                    let ghost rest = self.fs();
                    top.next = next + 1;
                    self.frames.push(top);
                    proof {
                        let old_top = fs0.last();
                        let new_top = frame_view(top);
                        assert(rest =~= fs0.drop_last());
                        assert(new_top.rem =~= old_top.rem.drop_first());
                        assert(new_top.coll == old_top.coll);
                        assert(self.fs() =~= rest.push(new_top));
                        assert(fs0 =~= rest.push(old_top));
                        lemma_stack_push(rest, new_top);
                        lemma_stack_push(rest, old_top);
                        lemma_dep_names_first(old_top.rem);
                        assert forall|n: Seq<char>| accounted(mods, fs0, n) implies #[trigger] accounted(
                            mods,
                            self.fs(),
                            n,
                        ) by {}
                        assert forall|n: Seq<char>| #[trigger] stack_names(self.fs()).contains(n) implies named(
                            roots,
                            mods,
                            n,
                        ) by {
                            assert(stack_names(fs0).contains(n));
                        }
                        lemma_all_accounted_keep(roots, mods, fs0, self.fs());
                        assert(self.frames@ =~= frames0.drop_last().push(top));
                        assert forall|i: int| 0 <= i < self.frames@.len() implies #[trigger] self.frames@[i].next
                            <= self.frames@[i].deps@.len() by {
                            if i < last {
                                assert(self.frames@[i] == frames0[i]);
                            }
                        }
                        let st = met_stream(roots, self.log@);
                        assert forall|i: int, j: int| 0 <= i < self.fs().len() && 0 <= j < self.fs()[i].rem.len() implies met(
                            st,
                            #[trigger] self.fs()[i].rem[j],
                        ) by {
                            if i < rest.len() {
                                assert(self.fs()[i] == fs0[i]);
                            } else {
                                assert(self.fs()[i].rem[j] == fs0[i].rem[j + 1]);
                            }
                        }
                        assert forall|i: int, j: int, m: int|
                            0 <= i < self.fs().len() && 0 <= j < self.fs()[i].coll.len() && 0 <= m < self.fs()[i].coll[j].len() implies met(
                            st,
                            #[trigger] self.fs()[i].coll[j][m],
                        ) by {
                            if i < rest.len() {
                                assert(self.fs()[i] == fs0[i]);
                            } else {
                                assert(self.fs()[i].coll == fs0[i].coll);
                            }
                        }
                        if self.breadth_first {
                            let c = self.processed@;
                            assert(fs0.len() == 1);
                            assert(st == st.take(c) + old_top.rem + flat(old_top.coll));
                            assert(st[c] == old_top.rem[0]);
                            assert(is_resolved(mods, st[c].name));
                            assert(st.take(c + 1) =~= st.take(c).push(st[c]));
                            assert(st =~= st.take(c + 1) + new_top.rem + flat(new_top.coll));
                            self.processed@ = c + 1;
                        }
                        if self.root_phase@ {
                            assert(old_top == fs0[0]);
                            assert(roots.skip(self.consumed@).drop_first() =~= roots.skip(self.consumed@ + 1));
                            assert(roots[self.consumed@] == old_top.rem[0]);
                            self.consumed@ = self.consumed@ + 1;
                            assert forall|i: int| 0 <= i < mods.len() implies from_first_root(roots, #[trigger] mods[i]) by {}
                        }
                        if !self.breadth_first {
                            let d = old_top.rem[0];
                            let seen0 = self.seen@;
                            assert(known_names(mods).contains(d.name));
                            assert(self.fs() == fs0.drop_last().push(FrameView { rem: fs0.last().rem.drop_first(), coll: fs0.last().coll }));
                            lemma_walk_skip(roots, seen0, self.steps@, fs0, known_names(mods), self.log@);
                            self.seen@ = seen0.push(d);
                            self.steps@ = self.steps@ + 1;
                            assert forall|i: int| 0 <= i < self.log@.len() implies first_met(self.seen@, #[trigger] self.log@[i].0) by {
                                assert(first_met(seen0, self.log@[i].0));
                                lemma_met_grow(seen0, seq![d], self.log@[i].0);
                                assert(seen0 + seq![d] =~= self.seen@);
                            }
                            assert forall|j: int| 0 <= j < self.seen@.len() implies is_resolved(mods, #[trigger] self.seen@[j].name) by {
                                if j < seen0.len() {
                                    assert(self.seen@[j] == seen0[j]);
                                }
                            }
                        }
                    }
                } else {
                    let d = self.frames[last].deps[next].clone();
                    return Some(d);
                }
            }
        }
    }
}


/// The module a dependency resolves to, given the resolver's answer for it.
pub open spec fn module_of(d: DependencyView, a: CommitAndDescriptorView) -> ModuleView {
    ModuleView {
        name: d.name,
        commit_hash: a.commit_hash,
        coordinate: d.coordinate,
        specification: d.specification,
        dependencies: edges_of(a.descriptor.dependencies),
    }
}

/// The edges some dependencies are.
pub fn edges_from(deps: &Vec<Dependency>) -> (r: Vec<ResolvedDependency>)
    ensures
        edge_views(r@) == edges_of(dependency_views(deps@)),
{
    let mut r: Vec<ResolvedDependency> = Vec::new();
    let mut i: usize = 0;
    while i < deps.len()
        invariant
            i <= deps.len(),
            r@.len() == i,
            forall|k: int| 0 <= k < i ==> #[trigger] r@[k]@ == edge_of(deps@[k]@),
        decreases deps.len() - i,
    {
        r.push(ResolvedDependency { name: deps[i].name.clone(), rules: deps[i].rules.clone() });
        i = i + 1;
    }
    assert(edge_views(r@) =~= edges_of(dependency_views(deps@)));
    r
}

/// The lock file entries of some modules, in their order.
fn locked_from(mods: &Vec<ResolvedModule>) -> (r: Vec<LockedDependency>)
    ensures
        locked_views(r@) == locked_entries(module_views(mods@)),
{
    let mut r: Vec<LockedDependency> = Vec::new();
    let mut i: usize = 0;
    while i < mods.len()
        invariant
            i <= mods.len(),
            r@.len() == i,
            forall|k: int| 0 <= k < i ==> #[trigger] r@[k]@ == locked_entry(mods@[k]@),
        decreases mods.len() - i,
    {
        let m = &mods[i];
        r.push(
            LockedDependency {
                name: m.name.clone(),
                coordinate: LockedCoordinate::from_coordinate(&m.coordinate),
                specification: m.specification.clone(),
                commit_hash: m.commit_hash.clone(),
            },
        );
        i = i + 1;
    }
    assert(locked_views(r@) =~= locked_entries(module_views(mods@)));
    r
}

impl Resolution {
    /// Resolves the dependency the top level waits on with the resolver's answer: the
    /// module joins the graph, and its dependencies are visited once this level is done.
    fn record(&mut self, answer: CommitAndDescriptor)
        requires
            old(self).inv(),
            old(self).tracked_ok(),
            old(self).walk_ok(),
            old(self).fs().len() > 0,
            old(self).fs().last().rem.len() > 0,
            !is_resolved(old(self).mods(), old(self).fs().last().rem[0].name),
        ensures
            final(self).inv(),
            final(self).tracked_ok(),
            final(self).walk_ok(),
            final(self).breadth_first == old(self).breadth_first,
            final(self).log@ == old(self).log@.push((old(self).fs().last().rem[0], answer@)),
            final(self).roots@ == old(self).roots@,
            final(self).modules@.len() <= usize::MAX,
            final(self).modules@.len() == old(self).modules@.len() + 1,
            final(self).mods() == old(self).mods().push(
                module_of(old(self).fs().last().rem[0], answer@),
            ),
            final(self).fs() == old(self).fs().drop_last().push(
                FrameView {
                    rem: old(self).fs().last().rem.drop_first(),
                    coll: old(self).fs().last().coll.push(answer@.descriptor.dependencies),
                },
            ),
    {
        let ghost fs0 = self.fs();
        let ghost frames0 = self.frames@;
        let ghost mods0 = self.mods();
        let ghost roots = self.roots@;
        let ghost av = answer@;
        proof {
            lemma_record_tracked(roots, self.log@, mods0, fs0, self.processed@, self.breadth_first, av);
        }
        let last = self.frames.len() - 1;
        assert(fs0.last() == frame_view(self.frames@[last as int]));
        let mut top = self.frames.pop().unwrap();
        let next = top.next;
        assert(frame_view(top) == fs0.last());
        let count = top.deps.len();
        assert(next < count);
        assert(fs0.last().rem[0] == top.deps@[next as int]@);
        let ghost d = top.deps@[next as int]@;
        let CommitAndDescriptor { commit_hash, descriptor } = answer;
        let edges = edges_from(&descriptor.dependencies);
        let m = ResolvedModule {
            name: top.deps[next].name.clone(),
            commit_hash,
            coordinate: top.deps[next].coordinate.clone(),
            specification: top.deps[next].specification.clone(),
            dependencies: edges,
        };
        assert(m@ == module_of(d, av));
        self.modules.push(m);
        let _count = self.modules.len();
        top.next = next + 1;
        let Descriptor { dependencies: children, .. } = descriptor;
        top.children.push(children);
        self.frames.push(top);
        proof {
            self.log@ = self.log@.push((fs0.last().rem[0], av));
            self.processed@ = self.processed@ + 1;
        }
        proof {
            let rest = fs0.drop_last();
            let old_top = fs0.last();
            let new_top = frame_view(top);
            let mods = self.mods();
            let cv = av.descriptor.dependencies;
            assert(mods =~= mods0.push(module_of(d, av)));
            assert(new_top.rem =~= old_top.rem.drop_first());
            assert(new_top.coll =~= old_top.coll.push(cv));
            assert(self.fs() =~= rest.push(new_top));
            assert(fs0 =~= rest.push(old_top));
            lemma_stack_push(rest, new_top);
            lemma_stack_push(rest, old_top);
            lemma_coll_push(old_top.coll, cv);
            lemma_dep_names_first(old_top.rem);
            assert(self.frames@ =~= frames0.drop_last().push(top));
            assert forall|i: int| 0 <= i < self.frames@.len() implies #[trigger] self.frames@[i].next
                <= self.frames@[i].deps@.len() by {
                if i < last {
                    assert(self.frames@[i] == frames0[i]);
                }
            }
            assert forall|n: Seq<char>| #[trigger] is_resolved(mods, n) == (is_resolved(mods0, n) || d.name == n) by {
                lemma_is_resolved_push(mods0, module_of(d, av), n);
            }
            assert forall|n: Seq<char>| accounted(mods0, fs0, n) implies #[trigger] accounted(mods, self.fs(), n) by {}
            lemma_dep_names_index(old_top.rem, 0);
            assert(stack_names(fs0).contains(d.name));
            assert(named(roots, mods0, d.name));
            assert forall|i: int| 0 <= i < mods.len() implies #[trigger] reached_before(roots, mods, i) by {
                if i < mods0.len() {
                    assert(reached_before(roots, mods0, i));
                    assert(mods[i] == mods0[i]);
                    if !(exists|k: int| 0 <= k < roots.len() && #[trigger] roots[k].name == mods0[i].name) {
                        let (p, j) = choose|p: int, j: int|
                            0 <= p < i && 0 <= j < mods0[p].dependencies.len() && #[trigger] mods0[p].dependencies[j].name
                                == mods0[i].name;
                        assert(mods[p] == mods0[p]);
                    }
                } else {
                    assert(mods[i].name == d.name);
                    if !(exists|k: int| 0 <= k < roots.len() && #[trigger] roots[k].name == d.name) {
                        let (p, j) = choose|p: int, j: int|
                            0 <= p < mods0.len() && 0 <= j < mods0[p].dependencies.len()
                                && #[trigger] mods0[p].dependencies[j].name == d.name;
                        assert(mods[p] == mods0[p]);
                    }
                }
            }
            assert forall|n: Seq<char>| #[trigger] stack_names(self.fs()).contains(n) implies named(roots, mods, n) by {
                if stack_names(fs0).contains(n) {
                    assert(named(roots, mods0, n));
                    if !(exists|k: int| 0 <= k < roots.len() && #[trigger] roots[k].name == n) {
                        let (p, j) = choose|p: int, j: int|
                            0 <= p < mods0.len() && 0 <= j < mods0[p].dependencies.len()
                                && #[trigger] mods0[p].dependencies[j].name == n;
                        assert(mods[p] == mods0[p]);
                    }
                } else {
                    assert(dep_names(cv).contains(n));
                    let ms = cv.map_values(|x: DependencyView| x.name);
                    assert(ms.to_set().contains(n));
                    assert(ms.contains(n));
                    let j = choose|j: int| 0 <= j < ms.len() && #[trigger] ms[j] == n;
                    let q = mods0.len() as int;
                    assert(mods[q].dependencies[j].name == cv[j].name);
                }
            }
            assert forall|i: int, j: int| 0 <= i < mods.len() && 0 <= j < mods[i].dependencies.len() implies accounted(
                mods,
                self.fs(),
                #[trigger] mods[i].dependencies[j].name,
            ) by {
                if i < mods0.len() {
                    assert(mods[i] == mods0[i]);
                    assert(accounted(mods0, fs0, mods0[i].dependencies[j].name));
                } else {
                    assert(mods[i].dependencies[j].name == cv[j].name);
                    lemma_dep_names_index(cv, j);
                }
            }
            assert forall|k: int| 0 <= k < roots.len() implies accounted(mods, self.fs(), #[trigger] roots[k].name) by {
                assert(accounted(mods0, fs0, roots[k].name));
            }
            assert forall|i: int, j: int| 0 <= i < j < mods.len() implies #[trigger] mods[i].name != #[trigger] mods[j].name by {
                if j == mods0.len() {
                    assert(mods[i] == mods0[i]);
                    assert(is_resolved(mods0, mods0[i].name));
                } else {
                    assert(mods[i] == mods0[i]);
                    assert(mods[j] == mods0[j]);
                }
            }
            if self.root_phase@ {
                let c = self.consumed@;
                assert(old_top == fs0[0]);
                assert(roots.skip(c).drop_first() =~= roots.skip(c + 1));
                assert(roots[c] == d);
                assert forall|i: int| 0 <= i < mods.len() implies from_first_root(roots, #[trigger] mods[i]) by {
                    if i < mods0.len() {
                        assert(mods[i] == mods0[i]);
                    } else {
                        assert forall|j: int| 0 <= j < c implies roots[j].name != mods[i].name by {
                            assert(is_resolved(mods0, roots[j].name));
                        }
                        assert(roots[c].name == mods[i].name);
                    }
                }
                assert forall|k: int| 0 <= k < c + 1 implies is_resolved(mods, #[trigger] roots[k].name) by {
                    if k < c {
                        assert(is_resolved(mods0, roots[k].name));
                    }
                }
                self.consumed@ = c + 1;
            } else {
                assert forall|k: int| 0 <= k < roots.len() implies #[trigger] root_resolved(roots, mods, k) by {
                    assert(root_resolved(roots, mods0, k));
                    let i = choose|i: int| 0 <= i < mods0.len() && #[trigger] mods0[i].name == roots[k].name && from_first_root(roots, mods0[i]);
                    assert(mods[i] == mods0[i]);
                }
            }
        }
        proof {
            if !self.breadth_first {
                let d = fs0.last().rem[0];
                let seen0 = old(self).seen@;
                let log0 = old(self).log@;
                let k0 = known_names(mods0);
                assert(!k0.contains(d.name));
                lemma_walk_take(roots, seen0, old(self).steps@, fs0, k0, log0, av);
                assert(known_names(self.mods()) =~= k0.insert(d.name)) by {
                    assert forall|n: Seq<char>| #[trigger] known_names(self.mods()).contains(n) == k0.insert(d.name).contains(n) by {
                        lemma_is_resolved_push(mods0, module_of(d, av), n);
                    }
                }
                assert(self.fs() == fs0.drop_last().push(
                    FrameView { rem: fs0.last().rem.drop_first(), coll: fs0.last().coll.push(av.descriptor.dependencies) },
                ));
                self.seen@ = seen0.push(d);
                self.steps@ = old(self).steps@ + 1;
                assert forall|j: int| 0 <= j < self.seen@.len() implies is_resolved(self.mods(), #[trigger] self.seen@[j].name) by {
                    lemma_is_resolved_push(mods0, module_of(d, av), self.seen@[j].name);
                    if j < seen0.len() {
                        assert(self.seen@[j] == seen0[j]);
                        assert(is_resolved(mods0, seen0[j].name));
                    }
                }
                assert forall|i: int| 0 <= i < self.log@.len() implies first_met(self.seen@, #[trigger] self.log@[i].0) by {
                    if i < log0.len() {
                        assert(self.log@[i] == log0[i]);
                        assert(first_met(seen0, log0[i].0));
                        lemma_met_grow(seen0, seq![d], log0[i].0);
                        assert(seen0 + seq![d] =~= self.seen@);
                    } else {
                        assert(self.log@[i].0 == d);
                        let p = seen0.len() as int;
                        assert(self.seen@[p] == d);
                        assert forall|q: int| 0 <= q < p implies #[trigger] self.seen@[q].name != d.name by {
                            assert(self.seen@[q] == seen0[q]);
                            assert(is_resolved(mods0, seen0[q].name));
                        }
                    }
                }
            }
        }
    }

    /// The graph and lock file once no work is left.
    fn finish(self, descriptor: &Descriptor) -> (r: (ResolvedRootModule, LockFile))
        requires
            self.inv(),
            self.fs().len() == 0,
            self.roots@ == descriptor@.dependencies,
        ensures
            resolution_laws(descriptor@, r.0@, r.1@),
            r.0@.modules == self.mods(),
    {
        let ghost mods = self.mods();
        let ghost roots = self.roots@;
        let locked = locked_from(&self.modules);
        let root = ResolvedRootModule {
            name: descriptor.name.clone(),
            modules: self.modules,
            dependencies: edges_from(&descriptor.dependencies),
        };
        proof {
            assert(stack_names(self.fs()) =~= Set::<Seq<char>>::empty());
            assert(root@.modules == mods);
            let edges = root@.dependencies;
            assert forall|k: int| 0 <= k < edges.len() implies is_resolved(mods, #[trigger] edges[k].name) by {
                assert(edges[k].name == roots[k].name);
                assert(accounted(mods, self.fs(), roots[k].name));
            }
            assert forall|i: int, j: int|
                0 <= i < mods.len() && 0 <= j < mods[i].dependencies.len() implies is_resolved(
                    mods,
                    #[trigger] mods[i].dependencies[j].name,
                ) by {
                assert(accounted(mods, self.fs(), mods[i].dependencies[j].name));
            }
        }
        (root, LockFile { dependencies: locked })
    }
}

/// The first dependency still to meet in the top frame is a name still to meet.
proof fn lemma_next_named(fs: Seq<FrameView>)
    requires
        fs.len() > 0,
        fs.last().rem.len() > 0,
    ensures
        stack_names(fs).contains(fs.last().rem[0].name),
{
    let rem = fs.last().rem;
    assert(rem.map_values(|d: DependencyView| d.name)[0] == rem[0].name);
    assert(dep_names(rem).contains(rem[0].name));
}

/// What the answers received fix of a resolved graph: its modules are those the answers
/// built, each request being a dependency met, and the first one met with its name,
/// level by level (breadth first) or along the depth-first walk (see `depth_order`).
pub open spec fn built_by_answers<R: ModuleResolver>(
    resolver: R,
    roots: Seq<DependencyView>,
    mods: Seq<ModuleView>,
    log: Seq<Exchange>,
    breadth_first: bool,
) -> bool {
    &&& built_from(mods, log)
    &&& answered_by(resolver, log)
    &&& requests_distinct(log)
    &&& requests_met(roots, log)
    &&& breadth_first ==> level_order(roots, log)
    &&& !breadth_first ==> depth_order(roots, log)
}

/// Each answer of the record is the resolver's answer to its request, asked with no
/// commit.
pub open spec fn answered_by<R: ModuleResolver>(resolver: R, log: Seq<Exchange>) -> bool {
    forall|i: int|
        0 <= i < log.len() ==> resolver.answers(
            log[i].0.coordinate,
            log[i].0.specification,
            None,
            log[i].0.name,
            Ok(#[trigger] log[i].1),
        )
}

/// No name is requested twice.
pub open spec fn requests_distinct(log: Seq<Exchange>) -> bool {
    forall|i: int, j: int| 0 <= i < j < log.len() ==> #[trigger] log[i].0.name != #[trigger] log[j].0.name
}

/// The resolver's error answer `m` to a request made after those recorded: for a
/// dependency met whose name no recorded request has, asked with no commit.
pub open spec fn failed_on<R: ModuleResolver>(resolver: R, roots: Seq<DependencyView>, log: Seq<Exchange>, m: Seq<char>) -> bool {
    exists|d: DependencyView|
        met(met_stream(roots, log), d) && (forall|i: int| 0 <= i < log.len() ==> #[trigger] log[i].0.name != d.name)
            && #[trigger] resolver.answers(d.coordinate, d.specification, None, d.name, Err(m))
}

fn run<R: ModuleResolver>(descriptor: &Descriptor, resolver: &R, breadth_first: bool) -> (r: (
    Result<(ResolvedRootModule, LockFile), FetchError>,
    Ghost<Seq<Exchange>>,
))
    ensures
        r.0 matches Ok((root, lock)) ==> resolution_laws(descriptor@, root@, lock@) && built_by_answers(
            *resolver,
            descriptor@.dependencies,
            root@.modules,
            r.1@,
            breadth_first,
        ),
        r.0 matches Err(e) ==> e is Resolver,
        r.0 matches Err(FetchError::Resolver(m)) ==> failed_on(*resolver, descriptor@.dependencies, r.1@, m@),
        descriptor@.dependencies.len() == 0 ==> r.0 is Ok,
{
    let mut st = Resolution::start(descriptor, breadth_first);
    loop
        invariant
            st.inv(),
            st.tracked_ok(),
            st.walk_ok(),
            st.breadth_first == breadth_first,
            st.roots@ == descriptor@.dependencies,
            answered_by(*resolver, st.log@),
            st.modules@.len() <= usize::MAX,
            descriptor@.dependencies.len() == 0 ==> st.mods().len() == 0,
        ensures
            st.inv(),
            st.tracked_ok(),
            st.walk_ok(),
            st.breadth_first == breadth_first,
            st.roots@ == descriptor@.dependencies,
            answered_by(*resolver, st.log@),
            st.fs().len() == 0,
        decreases usize::MAX - st.modules@.len(),
    {
        match st.next_request() {
            None => break,
            Some(d) => {
                proof {
                    lemma_next_named(st.fs());
                    if descriptor@.dependencies.len() == 0 {
                        assert(named(st.roots@, st.mods(), d@.name));
                        assert(false);
                    }
                }
                let answer = resolver.resolve(&d.coordinate, &d.specification, None, &d.name);
                proof {
                    let fs = st.fs();
                    assert(met(met_stream(st.roots@, st.log@), fs.last().rem[0])) by {
                        assert(fs[fs.len() - 1].rem[0] == fs.last().rem[0]);
                    }
                }
                match answer {
                    Err(e) => {
                        assert(resolver.answers(d@.coordinate, d@.specification, None, d@.name, Err(e@)));
                        assert forall|i: int| 0 <= i < st.log@.len() implies #[trigger] st.log@[i].0.name != d@.name by {
                            assert(st.mods()[i].name == st.log@[i].0.name);
                        }
                        return (Err(FetchError::Resolver(e)), Ghost(st.log@));
                    },
                    Ok(a) => {
                        let ghost log0 = st.log@;
                        let ghost av = a@;
                        st.record(a);
                        proof {
                            assert forall|i: int| 0 <= i < st.log@.len() implies resolver.answers(
                                st.log@[i].0.coordinate,
                                st.log@[i].0.specification,
                                None,
                                st.log@[i].0.name,
                                Ok(#[trigger] st.log@[i].1),
                            ) by {
                                if i < log0.len() {
                                    assert(st.log@[i] == log0[i]);
                                } else {
                                    assert(st.log@[i] == (d@, av));
                                }
                            }
                        }
                    },
                }
            },
        }
    }
    let ghost log = st.log@;
    proof {
        assert forall|i: int, j: int| 0 <= i < j < st.log@.len() implies #[trigger] st.log@[i].0.name != #[trigger] st.log@[j].0.name by {
            assert(st.mods()[i].name == st.log@[i].0.name);
            assert(st.mods()[j].name == st.log@[j].0.name);
        }
        if !breadth_first {
            let ans = answers_of(log);
            assert(agrees(ans, log)) by {
                assert forall|i: int| 0 <= i < log.len() implies ans.contains_key(#[trigger] log[i].0.name) && ans[log[i].0.name]
                    == log[i].1.descriptor.dependencies by {
                    let n = log[i].0.name;
                    assert(ans.contains_key(n));
                    let j = choose|j: int| 0 <= j < log.len() && #[trigger] log[j].0.name == n;
                    if j != i {
                        if j < i {
                            assert(log[j].0.name != log[i].0.name);
                        } else {
                            assert(log[i].0.name != log[j].0.name);
                        }
                    }
                }
            }
            let kn = known_names(st.mods());
            assert(st.fs() =~= Seq::<FrameView>::empty());
            assert(dfs_walk(st.fs(), kn, ans, 0) =~= Seq::<DependencyView>::empty());
            assert(dfs_walk(start_frames(st.roots@), Set::empty(), ans, 0 + st.steps@) == st.seen@ + dfs_walk(st.fs(), kn, ans, 0));
            assert(dfs_walk(start_frames(st.roots@), Set::empty(), ans, st.steps@) =~= st.seen@);
            assert(walk_first(dfs_walk(start_frames(st.roots@), Set::empty(), ans, st.steps@), log));
            assert(depth_order(st.roots@, log));
        }
    }
    let done = st.finish(descriptor);
    (Ok(done), Ghost(log))
}

/// Resolves the dependency graph of a module: every dependency reached from its own,
/// each name once. A module's own dependencies are resolved first, then those of each
/// of them in turn, depth first; of several dependencies with one name, the first one
/// reached this way wins, however deep (`depth_order`). The resolver is asked once for
/// each name, with no commit; its first error ends the resolution. Also gives, as a
/// record, the requests made and the answers received, in order: each module is built
/// from its answer.
pub fn resolve<R: ModuleResolver>(descriptor: &Descriptor, resolver: &R) -> (r: (
    Result<(ResolvedRootModule, LockFile), FetchError>,
    Ghost<Seq<Exchange>>,
))
    ensures
        r.0 matches Ok((root, lock)) ==> resolution_laws(descriptor@, root@, lock@) && built_by_answers(
            *resolver,
            descriptor@.dependencies,
            root@.modules,
            r.1@,
            false,
        ),
        r.0 matches Err(e) ==> e is Resolver,
        r.0 matches Err(FetchError::Resolver(m)) ==> failed_on(*resolver, descriptor@.dependencies, r.1@, m@),
        descriptor@.dependencies.len() == 0 ==> r.0 is Ok,
{
    run(descriptor, resolver, false)
}

/// The lock file of a module: its dependencies resolved level by level (the root's
/// own, then all of theirs, and so on), each name once, the first met winning; the
/// entries ordered by name. Also gives the requests made and the answers received.
pub fn lock<R: ModuleResolver>(descriptor: &Descriptor, resolver: &R) -> (r: (
    Result<LockFile, FetchError>,
    Ghost<Seq<Exchange>>,
))
    ensures
        r.0 matches Ok(lf) ==> exists|g: super::RootView|
            {
                &&& resolution_laws(descriptor@, g, locked_entries(g.modules))
                &&& built_by_answers(*resolver, descriptor@.dependencies, g.modules, r.1@, true)
                &&& ordered_by_name(lf@)
                &&& lf@.to_multiset() == locked_entries(g.modules).to_multiset()
            },
        r.0 matches Err(e) ==> e is Resolver,
        r.0 matches Err(FetchError::Resolver(m)) ==> failed_on(*resolver, descriptor@.dependencies, r.1@, m@),
        descriptor@.dependencies.len() == 0 ==> r.0 is Ok,
{
    let (res, log) = run(descriptor, resolver, true);
    match res {
        Err(e) => (Err(e), log),
        Ok((root, lockfile)) => {
            let ghost g = root@;
            let sorted = sort_by_name(lockfile.dependencies);
            let lf = LockFile { dependencies: sorted };
            let out: (Result<LockFile, FetchError>, Ghost<Seq<Exchange>>) = (Ok(lf), log);
            assert({
                &&& resolution_laws(descriptor@, g, locked_entries(g.modules))
                &&& built_by_answers(*resolver, descriptor@.dependencies, g.modules, out.1@, true)
                &&& ordered_by_name(lf@)
                &&& lf@.to_multiset() == locked_entries(g.modules).to_multiset()
            });
            out
        },
    }
}

/// What `parallel_resolve` gives on success for a record of answers: the flat list of a
/// graph that `resolve` could give for the same answers, and its lock file ordered by
/// name.
pub open spec fn parallel_result<R: ModuleResolver>(
    resolver: R,
    descriptor: crate::model::protofetch::descriptor::DescriptorView,
    flat: FlatModule,
    lock: Seq<LockedDependencyView>,
    log: Seq<Exchange>,
) -> bool {
    exists|g: super::RootView|
        {
            &&& resolution_laws(descriptor, g, locked_entries(g.modules))
            &&& built_by_answers(resolver, descriptor.dependencies, g.modules, log, false)
            &&& flat_of(g, flat)
            &&& ordered_by_name(lock)
            &&& lock.to_multiset() == locked_entries(g.modules).to_multiset()
        }
}

/// The flat list of a graph: its name, and one resolved dependency per module.
pub open spec fn flat_of(g: super::RootView, flat: FlatModule) -> bool {
    &&& flat.module_name@ == g.name
    &&& flat.dependencies@.len() == g.modules.len()
    &&& forall|i: int| 0 <= i < flat.dependencies@.len() ==> flat_dependency(g, i, #[trigger] flat.dependencies@[i]@)
}

/// What `resolve` gives on success for a record of answers.
pub open spec fn sequential_result<R: ModuleResolver>(
    resolver: R,
    descriptor: crate::model::protofetch::descriptor::DescriptorView,
    root: super::RootView,
    lock: Seq<LockedDependencyView>,
    log: Seq<Exchange>,
) -> bool {
    resolution_laws(descriptor, root, lock) && built_by_answers(resolver, descriptor.dependencies, root.modules, log, false)
}

/// Resolving in parallel and in sequence agree: for the same answers of the resolver,
/// `parallel_resolve` gives the flat list of the graph that `resolve` gives, and the
/// lock file of `resolve` ordered by name.
pub proof fn lemma_parallel_is_sequential<R: ModuleResolver>(
    resolver: R,
    descriptor: crate::model::protofetch::descriptor::DescriptorView,
    root: super::RootView,
    lock0: Seq<LockedDependencyView>,
    flat: FlatModule,
    lock: Seq<LockedDependencyView>,
    log: Seq<Exchange>,
)
    requires
        sequential_result(resolver, descriptor, root, lock0, log),
        parallel_result(resolver, descriptor, flat, lock, log),
    ensures
        flat_of(root, flat),
        ordered_by_name(lock),
        lock.to_multiset() == lock0.to_multiset(),
{
    let g = choose|g: super::RootView|
        {
            &&& resolution_laws(descriptor, g, locked_entries(g.modules))
            &&& built_by_answers(resolver, descriptor.dependencies, g.modules, log, false)
            &&& flat_of(g, flat)
            &&& ordered_by_name(lock)
            &&& lock.to_multiset() == locked_entries(g.modules).to_multiset()
        };
    assert forall|i: int| 0 <= i < g.modules.len() implies #[trigger] g.modules[i] == root.modules[i] by {
        assert(g.modules[i] == module_of(log[i].0, log[i].1));
        assert(root.modules[i] == module_of(log[i].0, log[i].1));
    }
    assert(g.modules =~= root.modules);
    assert(g == root);
}

/// Resolves the graph as `resolve` does, then gives it as a flat list of resolved
/// dependencies, and the lock file ordered by name.
pub fn parallel_resolve<R: ModuleResolver>(descriptor: &Descriptor, resolver: &R) -> (r: (
    Result<(FlatModule, LockFile), FetchError>,
    Ghost<Seq<Exchange>>,
))
    ensures
        r.0 matches Ok((flat, lock)) ==> parallel_result(*resolver, descriptor@, flat, lock@, r.1@),
        r.0 matches Err(e) ==> e is Resolver,
        r.0 matches Err(FetchError::Resolver(m)) ==> failed_on(*resolver, descriptor@.dependencies, r.1@, m@),
        descriptor@.dependencies.len() == 0 ==> r.0 is Ok,
{
    let (res, log) = resolve(descriptor, resolver);
    match res {
        Err(e) => (Err(e), log),
        Ok((root, lockfile)) => {
            let ghost g = root@;
            let sorted = sort_by_name(lockfile.dependencies);
            let flat = FlatModule::from_root(root);
            let lock = LockFile { dependencies: sorted };
            assert(resolution_laws(descriptor@, g, locked_entries(g.modules)));
            assert(flat_of(g, flat));
            let out: (Result<(FlatModule, LockFile), FetchError>, Ghost<Seq<Exchange>>) = (Ok((flat, lock)), log);
            assert({
                &&& resolution_laws(descriptor@, g, locked_entries(g.modules))
                &&& built_by_answers(*resolver, descriptor@.dependencies, g.modules, out.1@, false)
                &&& flat_of(g, flat)
                &&& ordered_by_name(lock@)
                &&& lock@.to_multiset() == locked_entries(g.modules).to_multiset()
            });
            out
        },
    }
}

} // verus!
