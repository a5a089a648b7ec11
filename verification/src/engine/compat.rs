//! The graph as a flat list of resolved dependencies, each with the rules of every
//! edge that leads to it.
use vstd::prelude::*;

use super::{
    edge_views, module_views, EdgeView, ModuleView, ResolvedDependency, ResolvedModule,
    ResolvedRootModule,
};
use crate::model::protofetch::descriptor::{Rules, RulesView};
use crate::model::protofetch::resolved::{
    insert_name, name_views, rules_views, strictly_sorted, ResolvedDependency as FlatDependency,
    ResolvedDependencyView, ResolvedModule as FlatModule,
};
use crate::model::protofetch::ModuleName;

verus! {

/// The rules of the edges among `es` that lead to `n`, in order.
pub open spec fn rules_towards(es: Seq<EdgeView>, n: Seq<char>) -> Seq<RulesView>
    decreases es.len(),
{
    if es.len() == 0 {
        seq![]
    } else if es.last().name == n {
        rules_towards(es.drop_last(), n).push(es.last().rules)
    } else {
        rules_towards(es.drop_last(), n)
    }
}

/// The rules of the edges of some modules that lead to `n`, module by module.
pub open spec fn module_rules_towards(mods: Seq<ModuleView>, n: Seq<char>) -> Seq<RulesView>
    decreases mods.len(),
{
    if mods.len() == 0 {
        seq![]
    } else {
        module_rules_towards(mods.drop_last(), n) + rules_towards(mods.last().dependencies, n)
    }
}

/// The rules of every edge leading to `n`: the root's edges first, then those of each
/// module in turn.
pub open spec fn all_rules_towards(root: super::RootView, n: Seq<char>) -> Seq<RulesView> {
    rules_towards(root.dependencies, n) + module_rules_towards(root.modules, n)
}

/// The names of some edges, as a set.
pub open spec fn edge_name_set(es: Seq<EdgeView>) -> Set<Seq<char>> {
    es.map_values(|e: EdgeView| e.name).to_set()
}

/// The `i`-th module of a graph as a flat resolved dependency. The rules go to the first
/// module with the name; a later one with the same name gets none.
pub open spec fn flat_dependency(root: super::RootView, i: int, d: ResolvedDependencyView) -> bool {
    let m = root.modules[i];
    &&& d.name == m.name
    &&& d.commit_hash == m.commit_hash
    &&& d.coordinate == m.coordinate
    &&& d.specification == m.specification
    &&& strictly_sorted(d.dependencies)
    &&& d.dependencies.to_set() == edge_name_set(m.dependencies)
    &&& d.rules == if exists|j: int| 0 <= j < i && #[trigger] root.modules[j].name == m.name {
        seq![]
    } else {
        all_rules_towards(root, m.name)
    }
}

fn rules_of_edges(es: &Vec<ResolvedDependency>, n: &ModuleName, out: &mut Vec<Rules>)
    ensures
        rules_views(final(out)@) == rules_views(old(out)@) + rules_towards(edge_views(es@), n@),
{
    let ghost start = rules_views(out@);
    let mut i: usize = 0;
    assert(edge_views(es@).take(0) =~= Seq::<EdgeView>::empty());
    assert(start + rules_towards(Seq::<EdgeView>::empty(), n@) =~= start);
    while i < es.len()
        invariant
            i <= es.len(),
            rules_views(out@) == start + rules_towards(edge_views(es@).take(i as int), n@),
        decreases es.len() - i,
    {
        let ghost before = rules_views(out@);
        assert(edge_views(es@).take(i + 1).drop_last() =~= edge_views(es@).take(i as int));
        assert(edge_views(es@).take(i + 1).last() == es@[i as int]@);
        if es[i].name.same(n) {
            out.push(es[i].rules.clone());
            assert(rules_views(out@) =~= before.push(es@[i as int].rules@));
        }
        i = i + 1;
    }
    assert(edge_views(es@).take(es.len() as int) =~= edge_views(es@));
}

fn names_of_edges(es: &Vec<ResolvedDependency>) -> (r: Vec<ModuleName>)
    ensures
        strictly_sorted(name_views(r@)),
        name_views(r@).to_set() == edge_name_set(edge_views(es@)),
{
    let mut r: Vec<ModuleName> = Vec::new();
    let mut i: usize = 0;
    let ghost names = edge_views(es@).map_values(|e: EdgeView| e.name);
    assert(name_views(r@).to_set() =~= names.take(0).to_set());
    while i < es.len()
        invariant
            i <= es.len(),
            names == edge_views(es@).map_values(|e: EdgeView| e.name),
            strictly_sorted(name_views(r@)),
            name_views(r@).to_set() == names.take(i as int).to_set(),
        decreases es.len() - i,
    {
        insert_name(&mut r, es[i].name.clone());
        assert(names.take(i + 1) =~= names.take(i as int).push(names[i as int]));
        proof {
            names.take(i as int).lemma_push_to_set_commute(names[i as int]);
        }
        i = i + 1;
    }
    assert(names.take(es.len() as int) =~= names);
    r
}

impl FlatModule {
    /// The graph as a flat list: the root's name, and each module as a resolved
    /// dependency carrying the rules of every edge towards it.
    pub fn from_root(root: ResolvedRootModule) -> (r: FlatModule)
        ensures
            r.module_name@ == root@.name,
            r.dependencies@.len() == root@.modules.len(),
            forall|i: int|
                0 <= i < r.dependencies@.len() ==> flat_dependency(
                    root@,
                    i,
                    #[trigger] r.dependencies@[i]@,
                ),
    {
        let ghost rv = root@;
        let mut out: Vec<FlatDependency> = Vec::new();
        let mut i: usize = 0;
        while i < root.modules.len()
            invariant
                i <= root.modules.len(),
                rv == root@,
                out@.len() == i,
                forall|k: int| 0 <= k < i ==> flat_dependency(rv, k, #[trigger] out@[k]@),
            decreases root.modules.len() - i,
        {
            let m = &root.modules[i];
            let mut taken = false;
            let mut j: usize = 0;
            while j < i
                invariant
                    j <= i < root.modules.len(),
                    rv == root@,
                    taken == exists|x: int| 0 <= x < j && #[trigger] rv.modules[x].name == rv.modules[i as int].name,
                decreases i - j,
            {
                if root.modules[j].name.same(&root.modules[i].name) {
                    assert(rv.modules[j as int].name == rv.modules[i as int].name);
                    taken = true;
                }
                j = j + 1;
            }
            let mut rules: Vec<Rules> = Vec::new();
            if !taken {
                rules_of_edges(&root.dependencies, &m.name, &mut rules);
                let mut k: usize = 0;
                assert(rules_views(rules@) =~= rules_towards(rv.dependencies, rv.modules[i as int].name)
                    + module_rules_towards(rv.modules.take(0), rv.modules[i as int].name));
                while k < root.modules.len()
                    invariant
                        k <= root.modules.len(),
                        i < root.modules.len(),
                        rv == root@,
                        rules_views(rules@) == rules_towards(rv.dependencies, rv.modules[i as int].name)
                            + module_rules_towards(rv.modules.take(k as int), rv.modules[i as int].name),
                    decreases root.modules.len() - k,
                {
                    rules_of_edges(&root.modules[k].dependencies, &root.modules[i].name, &mut rules);
                    assert(rv.modules.take(k + 1).drop_last() =~= rv.modules.take(k as int));
                    assert(rv.modules.take(k + 1).last() == rv.modules[k as int]);
                    assert(rules_views(rules@) =~= rules_towards(rv.dependencies, rv.modules[i as int].name)
                        + module_rules_towards(rv.modules.take(k + 1), rv.modules[i as int].name));
                    k = k + 1;
                }
                assert(rv.modules.take(root.modules.len() as int) =~= rv.modules);
            } else {
                assert(rules_views(rules@) =~= Seq::<RulesView>::empty());
            }
            let d = FlatDependency {
                name: m.name.clone(),
                commit_hash: m.commit_hash.clone(),
                coordinate: m.coordinate.clone(),
                specification: m.specification.clone(),
                dependencies: names_of_edges(&m.dependencies),
                rules,
            };
            assert(flat_dependency(rv, i as int, d@));
            out.push(d);
            i = i + 1;
        }
        FlatModule { module_name: root.name, dependencies: out }
    }
}

} // verus!
