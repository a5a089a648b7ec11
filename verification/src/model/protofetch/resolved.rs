//! A module with its dependencies resolved: for each dependency, the commit it was
//! resolved to, the names it depends on, and the rules every edge towards it carries.
use vstd::prelude::*;

use super::descriptor::{Rules, RulesView};
use super::{Coordinate, CoordinateView, ModuleName, RevisionSpecification, SpecificationView};
use crate::text::{lemma_seq_lt_total, lemma_seq_lt_trans, seq_lt};

verus! {

/// The names of some modules.
pub open spec fn name_views(v: Seq<ModuleName>) -> Seq<Seq<char>> {
    v.map_values(|n: ModuleName| n@)
}

/// The names come in strictly increasing order, so none occurs twice.
pub open spec fn strictly_sorted(s: Seq<Seq<char>>) -> bool {
    forall|i: int, j: int| 0 <= i < j < s.len() ==> seq_lt(#[trigger] s[i], #[trigger] s[j])
}

/// Puts `name` into a strictly sorted set of names, unless it is there already.
pub fn insert_name(set: &mut Vec<ModuleName>, name: ModuleName)
    requires
        strictly_sorted(name_views(old(set)@)),
    ensures
        strictly_sorted(name_views(final(set)@)),
        name_views(final(set)@).to_set() == name_views(old(set)@).to_set().insert(name@),
{
    let ghost before = name_views(set@);
    let mut i: usize = 0;
    while i < set.len()
        invariant
            i <= set.len(),
            set@ == old(set)@,
            before == name_views(set@),
            strictly_sorted(before),
            forall|k: int| 0 <= k < i ==> seq_lt(#[trigger] before[k], name@),
        decreases set.len() - i,
    {
        assert(before[i as int] == set@[i as int]@);
        if !crate::text::str_lt(set[i].as_str(), name.as_str()) {
            proof {
                lemma_seq_lt_total(before[i as int], name@);
            }
            if set[i].same(&name) {
                assert(name_views(set@).to_set() =~= before.to_set().insert(name@)) by {
                    assert(before.contains(name@)) by {
                        assert(before[i as int] == name@);
                    }
                }
                return;
            }
            assert(seq_lt(name@, before[i as int]));
            let ghost at = i as int;
            set.insert(i, name);
            proof {
                let after = name_views(set@);
                assert(after =~= before.insert(at, name@));
                assert forall|x: int, y: int| 0 <= x < y < after.len() implies seq_lt(
                    #[trigger] after[x],
                    #[trigger] after[y],
                ) by {
                    if y == at {
                        assert(seq_lt(before[x], name@));
                    } else if x == at {
                        assert(after[y] == before[y - 1]);
                        if y - 1 > at {
                            assert(seq_lt(before[at], before[y - 1]));
                            lemma_seq_lt_trans(name@, before[at], before[y - 1]);
                        }
                    } else if x < at && y > at {
                        assert(after[y] == before[y - 1]);
                        assert(seq_lt(before[x], before[y - 1]));
                    } else if x > at {
                        assert(after[x] == before[x - 1]);
                        assert(after[y] == before[y - 1]);
                    }
                }
                assert(after.to_set() =~= before.to_set().insert(name@)) by {
                    assert forall|e: Seq<char>| after.to_set().contains(e) implies before.to_set().insert(
                        name@,
                    ).contains(e) by {
                        let k = choose|k: int| 0 <= k < after.len() && after[k] == e;
                        if k < at {
                            assert(before[k] == e);
                        } else if k > at {
                            assert(before[k - 1] == e);
                        }
                    }
                    assert forall|e: Seq<char>| before.to_set().insert(name@).contains(e) implies after.to_set().contains(
                        e,
                    ) by {
                        if e == name@ {
                            assert(after[at] == e);
                        } else {
                            let k = choose|k: int| 0 <= k < before.len() && before[k] == e;
                            if k < at {
                                assert(after[k] == e);
                            } else {
                                assert(after[k + 1] == e);
                            }
                        }
                    }
                }
            }
            return;
        }
        i = i + 1;
    }
    let ghost n = name@;
    set.push(name);
    proof {
        let after = name_views(set@);
        assert(after =~= before.push(n));
        assert forall|x: int, y: int| 0 <= x < y < after.len() implies seq_lt(
            #[trigger] after[x],
            #[trigger] after[y],
        ) by {
            if y == before.len() {
                assert(seq_lt(before[x], n));
            }
        }
        assert(after.to_set() =~= before.to_set().insert(n)) by {
            assert forall|e: Seq<char>| after.to_set().contains(e) implies before.to_set().insert(
                n,
            ).contains(e) by {
                let k = choose|k: int| 0 <= k < after.len() && after[k] == e;
                if k < before.len() {
                    assert(before[k] == e);
                }
            }
            assert forall|e: Seq<char>| before.to_set().insert(n).contains(e) implies after.to_set().contains(
                e,
            ) by {
                if e == n {
                    assert(after[before.len() as int] == e);
                } else {
                    let k = choose|k: int| 0 <= k < before.len() && before[k] == e;
                    assert(after[k] == e);
                }
            }
        }
    }
}

/// A module whose dependencies, direct and transitive, are resolved.
pub struct ResolvedModule {
    pub module_name: ModuleName,
    pub dependencies: Vec<ResolvedDependency>,
}

/// A resolved dependency.
#[derive(Debug, PartialEq, Eq)]
pub struct ResolvedDependency {
    pub name: ModuleName,
    pub commit_hash: String,
    pub coordinate: Coordinate,
    pub specification: RevisionSpecification,
    /// The names of the dependencies of its descriptor, in ascending order, each once.
    pub dependencies: Vec<ModuleName>,
    /// The rules of every edge that leads to it.
    pub rules: Vec<Rules>,
}

/// The content of a resolved dependency.
pub struct ResolvedDependencyView {
    pub name: Seq<char>,
    pub commit_hash: Seq<char>,
    pub coordinate: CoordinateView,
    pub specification: SpecificationView,
    pub dependencies: Seq<Seq<char>>,
    pub rules: Seq<RulesView>,
}

/// The views of some rules.
pub open spec fn rules_views(v: Seq<Rules>) -> Seq<RulesView> {
    v.map_values(|r: Rules| r@)
}

impl View for ResolvedDependency {
    type V = ResolvedDependencyView;

    open spec fn view(&self) -> ResolvedDependencyView {
        ResolvedDependencyView {
            name: self.name@,
            commit_hash: self.commit_hash@,
            coordinate: self.coordinate@,
            specification: self.specification@,
            dependencies: name_views(self.dependencies@),
            rules: rules_views(self.rules@),
        }
    }
}

/// Every one of some rules prunes; there is at least one.
pub open spec fn all_prune(rules: Seq<RulesView>) -> bool {
    rules.len() > 0 && forall|i: int| 0 <= i < rules.len() ==> #[trigger] rules[i].prune
}

/// Every one of some rules is transitive; there is at least one.
pub open spec fn all_transitive(rules: Seq<RulesView>) -> bool {
    rules.len() > 0 && forall|i: int| 0 <= i < rules.len() ==> #[trigger] rules[i].transitive
}

impl ResolvedDependency {
    /// Every edge towards the dependency prunes it.
    pub fn is_pruned(&self) -> (r: bool)
        ensures
            r == all_prune(self@.rules),
    {
        if self.rules.len() == 0 {
            return false;
        }
        let mut i: usize = 0;
        while i < self.rules.len()
            invariant
                i <= self.rules.len(),
                forall|k: int| 0 <= k < i ==> #[trigger] self.rules@[k].prune,
            decreases self.rules.len() - i,
        {
            if !self.rules[i].prune {
                assert(!self@.rules[i as int].prune);
                return false;
            }
            i = i + 1;
        }
        assert forall|k: int| 0 <= k < self@.rules.len() implies #[trigger] self@.rules[k].prune by {
            assert(self.rules@[k].prune);
        }
        true
    }

    /// Every edge towards the dependency marks it transitive.
    pub fn is_transitive(&self) -> (r: bool)
        ensures
            r == all_transitive(self@.rules),
    {
        if self.rules.len() == 0 {
            return false;
        }
        let mut i: usize = 0;
        while i < self.rules.len()
            invariant
                i <= self.rules.len(),
                forall|k: int| 0 <= k < i ==> #[trigger] self.rules@[k].transitive,
            decreases self.rules.len() - i,
        {
            if !self.rules[i].transitive {
                assert(!self@.rules[i as int].transitive);
                return false;
            }
            i = i + 1;
        }
        assert forall|k: int| 0 <= k < self@.rules.len() implies #[trigger] self@.rules[k].transitive by {
            assert(self.rules@[k].transitive);
        }
        true
    }
}

} // verus!
