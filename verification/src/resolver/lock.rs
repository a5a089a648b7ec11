//! A resolver that keeps dependencies at the commits a lock file records, unless they
//! are selected for update.
use vstd::prelude::*;

use super::{answer_view, opt_str_view, CommitAndDescriptor, ModuleResolver};
use crate::model::protofetch::lock::{
    locked_coordinate, LockFile, LockedCoordinate, LockedDependencyView,
};
use crate::model::protofetch::{
    coordinate_url, specification_text, Coordinate, CoordinateView, ModuleName, Protocol,
    RevisionSpecification, SpecificationView,
};
use crate::text::{opt_view, str_eq};

verus! {

/// The updates selected by name: for each name, the commit it must move to, if one was
/// given.
pub open spec fn updates_view(v: Seq<(String, Option<String>)>) -> Seq<(Seq<char>, Option<Seq<char>>)> {
    v.map_values(|e: (String, Option<String>)| (e.0@, opt_view(e.1)))
}

/// The update selected for `name`: the first entry with that name.
pub open spec fn update_for(updates: Seq<(Seq<char>, Option<Seq<char>>)>, name: Seq<char>) -> Option<
    Option<Seq<char>>,
>
    decreases updates.len(),
{
    if updates.len() == 0 {
        None
    } else if updates[0].0 == name {
        Some(updates[0].1)
    } else {
        update_for(updates.drop_first(), name)
    }
}

/// The commit the lock file records for a coordinate and specification: that of the
/// first entry with both.
pub open spec fn locked_commit(
    entries: Seq<LockedDependencyView>,
    coordinate: (Seq<char>, Option<Protocol>),
    specification: SpecificationView,
) -> Option<Seq<char>>
    decreases entries.len(),
{
    if entries.len() == 0 {
        None
    } else if entries[0].coordinate == coordinate && entries[0].specification == specification {
        Some(entries[0].commit_hash)
    } else {
        locked_commit(entries.drop_first(), coordinate, specification)
    }
}

/// What to do with a request.
pub enum LockPlan {
    /// Ask the inner resolver, with this commit; when `expected` is set, the answer must
    /// be at that commit.
    Delegate { commit_hash: Option<String>, expected: Option<String> },
    /// Refuse: the lock file has no entry and may not change. The message says so.
    Missing(String),
}

/// The content of a plan.
pub enum LockPlanView {
    Delegate { commit_hash: Option<Seq<char>>, expected: Option<Seq<char>> },
    Missing(Seq<char>),
}

impl View for LockPlan {
    type V = LockPlanView;

    open spec fn view(&self) -> LockPlanView {
        match self {
            LockPlan::Delegate { commit_hash, expected } => LockPlanView::Delegate {
                commit_hash: opt_view(*commit_hash),
                expected: opt_view(*expected),
            },
            LockPlan::Missing(m) => LockPlanView::Missing(m@),
        }
    }
}

/// `No entry for <coordinate> <specification> in the lock file`.
pub open spec fn missing_message(c: CoordinateView, s: SpecificationView) -> Seq<char> {
    "No entry for "@ + coordinate_url(c) + " "@ + specification_text(s) + " in the lock file"@
}

/// `Commit hash of <coordinate> <specification> changed: the lock file specifies
/// <locked>, but the actual commit hash is <actual>`.
pub open spec fn changed_message(
    c: CoordinateView,
    s: SpecificationView,
    locked: Seq<char>,
    actual: Seq<char>,
) -> Seq<char> {
    "Commit hash of "@ + coordinate_url(c) + " "@ + specification_text(s)
        + " changed: the lock file specifies "@ + locked + ", but the actual commit hash is "@
        + actual
}

/// What a lock file resolver does with a request:
/// - a dependency selected for update goes to the inner resolver, at the commit given
///   for it, else at the commit asked for;
/// - else one the lock file records goes to the inner resolver at the commit asked
///   for, else at the recorded one, and must come back at the recorded one;
/// - else, when the lock file may not change, the request is refused;
/// - else it goes to the inner resolver as it is.
pub open spec fn lock_plan(
    updates: Seq<(Seq<char>, Option<Seq<char>>)>,
    entries: Seq<LockedDependencyView>,
    locked: bool,
    coordinate: CoordinateView,
    specification: SpecificationView,
    commit_hash: Option<Seq<char>>,
    name: Seq<char>,
) -> LockPlanView {
    match update_for(updates, name) {
        Some(precise) => LockPlanView::Delegate {
            commit_hash: match precise {
                Some(p) => Some(p),
                None => commit_hash,
            },
            expected: None,
        },
        None => match locked_commit(entries, locked_coordinate(coordinate), specification) {
            Some(c) => LockPlanView::Delegate {
                commit_hash: match commit_hash {
                    Some(h) => Some(h),
                    None => Some(c),
                },
                expected: Some(c),
            },
            None => if locked {
                LockPlanView::Missing(missing_message(coordinate, specification))
            } else {
                LockPlanView::Delegate { commit_hash, expected: None }
            },
        },
    }
}

/// The update given last for `name` among some, if any.
pub open spec fn last_update(updates: Seq<(Seq<char>, Option<Seq<char>>)>, name: Seq<char>) -> Option<
    Option<Seq<char>>,
>
    decreases updates.len(),
{
    if updates.len() == 0 {
        None
    } else if updates.last().0 == name {
        Some(updates.last().1)
    } else {
        last_update(updates.drop_last(), name)
    }
}

/// No name is given twice.
pub open spec fn names_distinct(u: Seq<(Seq<char>, Option<Seq<char>>)>) -> bool {
    forall|a: int, b: int| 0 <= a < b < u.len() ==> #[trigger] u[a].0 != #[trigger] u[b].0
}

proof fn lemma_update_for_absent(u: Seq<(Seq<char>, Option<Seq<char>>)>, n: Seq<char>)
    requires
        forall|a: int| 0 <= a < u.len() ==> #[trigger] u[a].0 != n,
    ensures
        update_for(u, n) is None,
    decreases u.len(),
{
    if u.len() > 0 {
        assert(u[0].0 != n);
        lemma_update_for_absent(u.drop_first(), n);
    }
}

proof fn lemma_update_for_push(u: Seq<(Seq<char>, Option<Seq<char>>)>, e: (Seq<char>, Option<Seq<char>>), n: Seq<char>)
    ensures
        update_for(u.push(e), n) == (if update_for(u, n) is Some {
            update_for(u, n)
        } else if e.0 == n {
            Some(e.1)
        } else {
            None
        }),
    decreases u.len(),
{
    if u.len() > 0 {
        assert(u.push(e)[0] == u[0]);
        assert(u.push(e).drop_first() =~= u.drop_first().push(e));
        lemma_update_for_push(u.drop_first(), e, n);
    } else {
        assert(u.push(e)[0] == e);
        assert(u.push(e).drop_first() =~= Seq::<(Seq<char>, Option<Seq<char>>)>::empty());
        assert(update_for(u.push(e).drop_first(), n) is None);
        assert(update_for(u, n) is None);
    }
}

proof fn lemma_update_for_set(
    u: Seq<(Seq<char>, Option<Seq<char>>)>,
    p: int,
    e: (Seq<char>, Option<Seq<char>>),
    n: Seq<char>,
)
    requires
        0 <= p < u.len(),
        u[p].0 == e.0,
        names_distinct(u),
    ensures
        update_for(u.update(p, e), n) == (if n == e.0 {
            Some(e.1)
        } else {
            update_for(u, n)
        }),
    decreases u.len(),
{
    if p == 0 {
        assert(u.update(p, e).drop_first() =~= u.drop_first());
    } else {
        assert(u[0].0 != u[p].0);
        assert(u.update(p, e).drop_first() =~= u.drop_first().update(p - 1, e));
        assert(names_distinct(u.drop_first())) by {
            assert forall|a: int, b: int| 0 <= a < b < u.drop_first().len() implies #[trigger] u.drop_first()[a].0
                != #[trigger] u.drop_first()[b].0 by {
                assert(u[a + 1].0 != u[b + 1].0);
            }
        }
        lemma_update_for_set(u.drop_first(), p - 1, e, n);
    }
}

/// The updates given, each name once with the update given last for it.
fn distinct_updates(updates: &Vec<(String, Option<String>)>) -> (r: Vec<(String, Option<String>)>)
    ensures
        names_distinct(updates_view(r@)),
        forall|n: Seq<char>| #[trigger] update_for(updates_view(r@), n) == last_update(updates_view(updates@), n),
{
    let ghost uv = updates_view(updates@);
    let mut r: Vec<(String, Option<String>)> = Vec::new();
    let mut i: usize = 0;
    while i < updates.len()
        invariant
            i <= updates@.len(),
            uv == updates_view(updates@),
            names_distinct(updates_view(r@)),
            forall|n: Seq<char>| #[trigger] update_for(updates_view(r@), n) == last_update(uv.take(i as int), n),
        decreases updates.len() - i,
    {
        let ghost rv = updates_view(r@);
        let ghost e = uv[i as int];
        assert(uv.take(i + 1).drop_last() =~= uv.take(i as int));
        assert(uv.take(i + 1).last() == e);
        assert(e == (updates@[i as int].0@, opt_view(updates@[i as int].1)));
        let mut p: usize = 0;
        while p < r.len()
            invariant
                p <= r@.len(),
                rv == updates_view(r@),
                i < updates@.len(),
                e == (updates@[i as int].0@, opt_view(updates@[i as int].1)),
                forall|a: int| 0 <= a < p ==> #[trigger] rv[a].0 != e.0,
            ensures
                p <= r@.len(),
                forall|a: int| 0 <= a < p ==> #[trigger] rv[a].0 != e.0,
                p < r@.len() ==> rv[p as int].0 == e.0,
            decreases r.len() - p,
        {
            assert(rv[p as int].0 == r@[p as int].0@);
            if str_eq(r[p].0.as_str(), updates[i].0.as_str()) {
                break;
            }
            p = p + 1;
        }
        let entry = (updates[i].0.clone(), updates[i].1.clone());
        assert((entry.0@, opt_view(entry.1)) == e);
        if p < r.len() {
            assert(rv[p as int].0 == e.0);
            r.set(p, entry);
            proof {
                assert(updates_view(r@) =~= rv.update(p as int, e));
                assert forall|n: Seq<char>| #[trigger] update_for(updates_view(r@), n) == last_update(uv.take(i + 1), n) by {
                    lemma_update_for_set(rv, p as int, e, n);
                }
                assert forall|a: int, b: int| 0 <= a < b < updates_view(r@).len() implies #[trigger] updates_view(r@)[a].0
                    != #[trigger] updates_view(r@)[b].0 by {
                    assert(rv[a].0 != rv[b].0);
                }
            }
        } else {
            r.push(entry);
            proof {
                assert(updates_view(r@) =~= rv.push(e));
                lemma_update_for_absent(rv, e.0);
                assert forall|n: Seq<char>| #[trigger] update_for(updates_view(r@), n) == last_update(uv.take(i + 1), n) by {
                    lemma_update_for_push(rv, e, n);
                    if n == e.0 {
                    } else {
                    }
                }
                assert forall|a: int, b: int| 0 <= a < b < updates_view(r@).len() implies #[trigger] updates_view(r@)[a].0
                    != #[trigger] updates_view(r@)[b].0 by {
                    if b == rv.len() {
                        assert(rv[a].0 != e.0);
                    } else {
                        assert(rv[a].0 != rv[b].0);
                    }
                }
            }
        }
        i = i + 1;
    }
    assert(uv.take(updates@.len() as int) =~= uv);
    r
}

/// A resolver that answers from a lock file where it can.
pub struct LockFileModuleResolver<R> {
    inner: R,
    lock_file: LockFile,
    locked: bool,
    updates: Vec<(String, Option<String>)>,
}

impl<R> LockFileModuleResolver<R> {
    /// The resolver it delegates to.
    pub closed spec fn inner(&self) -> R {
        self.inner
    }

    /// The entries of the lock file it follows.
    pub closed spec fn entries(&self) -> Seq<LockedDependencyView> {
        self.lock_file@
    }

    /// Whether the lock file may not change.
    pub closed spec fn is_locked(&self) -> bool {
        self.locked
    }

    /// The updates selected by name.
    pub closed spec fn updates(&self) -> Seq<(Seq<char>, Option<Seq<char>>)> {
        updates_view(self.updates@)
    }

    /// What it does with a request.
    pub open spec fn plan_for(
        &self,
        coordinate: CoordinateView,
        specification: SpecificationView,
        commit_hash: Option<Seq<char>>,
        name: Seq<char>,
    ) -> LockPlanView {
        lock_plan(
            self.updates(),
            self.entries(),
            self.is_locked(),
            coordinate,
            specification,
            commit_hash,
            name,
        )
    }

    /// Follows `lock_file`; when `locked`, refuses what it does not record.
    pub fn new(inner: R, lock_file: LockFile, locked: bool) -> (r: Self)
        ensures
            r.inner() == inner,
            r.entries() == lock_file@,
            r.is_locked() == locked,
            r.updates() == Seq::<(Seq<char>, Option<Seq<char>>)>::empty(),
    {
        let r = LockFileModuleResolver { inner, lock_file, locked, updates: Vec::new() };
        assert(r.updates() =~= Seq::<(Seq<char>, Option<Seq<char>>)>::empty());
        r
    }

    /// Follows `lock_file`, except for the dependencies named in `updates`, each moved to
    /// the commit given for it or else resolved anew; a name given twice takes the
    /// update given last.
    pub fn new_selected(inner: R, lock_file: LockFile, updates: Vec<(String, Option<String>)>) -> (r: Self)
        ensures
            r.inner() == inner,
            r.entries() == lock_file@,
            !r.is_locked(),
            forall|n: Seq<char>| #[trigger] update_for(r.updates(), n) == last_update(updates_view(updates@), n),
    {
        let entries = distinct_updates(&updates);
        LockFileModuleResolver { inner, lock_file, locked: false, updates: entries }
    }

    /// What the resolver does with a request.
    pub fn plan(
        &self,
        coordinate: &Coordinate,
        specification: &RevisionSpecification,
        commit_hash: Option<&str>,
        name: &ModuleName,
    ) -> (r: LockPlan)
        ensures
            r@ == self.plan_for(
                coordinate@,
                specification@,
                match commit_hash {
                    Some(h) => Some(h@),
                    None => None,
                },
                name@,
            ),
    {
        let asked: Option<String> = match commit_hash {
            Some(h) => Some(String::from_str(h)),
            None => None,
        };
        match find_update(&self.updates, name.as_str()) {
            Some(i) => {
                let commit = match &self.updates[i].1 {
                    Some(p) => Some(p.clone()),
                    None => asked,
                };
                return LockPlan::Delegate { commit_hash: commit, expected: None };
            },
            None => {},
        }
        let locked_coordinate = LockedCoordinate::from_coordinate(coordinate);
        match find_locked(&self.lock_file, &locked_coordinate, specification) {
            Some(i) => {
                let c = self.lock_file.dependencies[i].commit_hash.clone();
                let commit = match asked {
                    Some(h) => Some(h),
                    None => Some(c.clone()),
                };
                LockPlan::Delegate { commit_hash: commit, expected: Some(c) }
            },
            None => {
                if self.locked {
                    LockPlan::Missing(missing_entry(coordinate, specification))
                } else {
                    LockPlan::Delegate { commit_hash: asked, expected: None }
                }
            },
        }
    }
}

/// The position of the first update with name `name`.
fn find_update(updates: &Vec<(String, Option<String>)>, name: &str) -> (r: Option<usize>)
    ensures
        match r {
            Some(i) => i < updates@.len() && update_for(updates_view(updates@), name@) == Some(
                opt_view(updates@[i as int].1),
            ),
            None => update_for(updates_view(updates@), name@) is None,
        },
{
    let ghost all = updates_view(updates@);
    let mut i: usize = 0;
    assert(all.skip(0) == all);
    while i < updates.len()
        invariant
            i <= updates.len(),
            all == updates_view(updates@),
            update_for(all, name@) == update_for(all.skip(i as int), name@),
        decreases updates.len() - i,
    {
        assert(all.skip(i as int).drop_first() == all.skip(i + 1));
        assert(all.skip(i as int)[0] == all[i as int]);
        if str_eq(updates[i].0.as_str(), name) {
            return Some(i);
        }
        i = i + 1;
    }
    None
}

/// The position of the first lock file entry for a coordinate and specification.
fn find_locked(
    lock_file: &LockFile,
    coordinate: &LockedCoordinate,
    specification: &RevisionSpecification,
) -> (r: Option<usize>)
    ensures
        match r {
            Some(i) => i < lock_file.dependencies@.len() && locked_commit(
                lock_file@,
                coordinate@,
                specification@,
            ) == Some(lock_file.dependencies@[i as int].commit_hash@),
            None => locked_commit(lock_file@, coordinate@, specification@) is None,
        },
{
    let ghost all = lock_file@;
    let mut i: usize = 0;
    assert(all.skip(0) == all);
    while i < lock_file.dependencies.len()
        invariant
            i <= lock_file.dependencies.len(),
            all == lock_file@,
            locked_commit(all, coordinate@, specification@) == locked_commit(
                all.skip(i as int),
                coordinate@,
                specification@,
            ),
        decreases lock_file.dependencies.len() - i,
    {
        assert(all.skip(i as int).drop_first() == all.skip(i + 1));
        assert(all.skip(i as int)[0] == lock_file.dependencies@[i as int]@);
        let d = &lock_file.dependencies[i];
        if d.coordinate.same(coordinate) && d.specification.same(specification) {
            return Some(i);
        }
        i = i + 1;
    }
    None
}

fn missing_entry(coordinate: &Coordinate, specification: &RevisionSpecification) -> (r: String)
    ensures
        r@ == missing_message(coordinate@, specification@),
{
    let mut m = String::from_str("No entry for ");
    m.append(coordinate.display().as_str());
    m.append(" ");
    m.append(specification.display().as_str());
    m.append(" in the lock file");
    m
}

fn changed_entry(
    coordinate: &Coordinate,
    specification: &RevisionSpecification,
    locked: &str,
    actual: &str,
) -> (r: String)
    ensures
        r@ == changed_message(coordinate@, specification@, locked@, actual@),
{
    let mut m = String::from_str("Commit hash of ");
    m.append(coordinate.display().as_str());
    m.append(" ");
    m.append(specification.display().as_str());
    m.append(" changed: the lock file specifies ");
    m.append(locked);
    m.append(", but the actual commit hash is ");
    m.append(actual);
    m
}


/// What a lock file resolver makes of the inner resolver's answer: an answer at
/// another commit than the recorded one is refused.
pub open spec fn checked_answer(
    coordinate: CoordinateView,
    specification: SpecificationView,
    expected: Option<Seq<char>>,
    answer: Result<super::CommitAndDescriptorView, Seq<char>>,
) -> Result<super::CommitAndDescriptorView, Seq<char>> {
    match (answer, expected) {
        (Ok(a), Some(e)) => if a.commit_hash == e {
            Ok(a)
        } else {
            Err(changed_message(coordinate, specification, e, a.commit_hash))
        },
        _ => answer,
    }
}

/// Holds the inner resolver's answer to the commit the lock file records.
pub fn check_answer(
    coordinate: &Coordinate,
    specification: &RevisionSpecification,
    expected: Option<&str>,
    answer: Result<CommitAndDescriptor, String>,
) -> (r: Result<CommitAndDescriptor, String>)
    ensures
        answer_view(r) == checked_answer(
            coordinate@,
            specification@,
            match expected {
                Some(e) => Some(e@),
                None => None,
            },
            answer_view(answer),
        ),
{
    match (answer, expected) {
        (Ok(a), Some(e)) => {
            if str_eq(a.commit_hash.as_str(), e) {
                Ok(a)
            } else {
                Err(changed_entry(coordinate, specification, e, a.commit_hash.as_str()))
            }
        },
        (answer, _) => answer,
    }
}


impl<R: ModuleResolver> ModuleResolver for LockFileModuleResolver<R> {
    /// As `plan` says: the message for what the lock file does not record when it may
    /// not change; otherwise an answer of the inner resolver asked at the plan's commit,
    /// refused when it is not at the commit the lock file expects and otherwise
    /// unchanged.
    open spec fn answers(
        &self,
        coordinate: CoordinateView,
        specification: SpecificationView,
        commit_hash: Option<Seq<char>>,
        name: Seq<char>,
        r: Result<super::CommitAndDescriptorView, Seq<char>>,
    ) -> bool {
        match self.plan_for(coordinate, specification, commit_hash, name) {
            LockPlanView::Missing(m) => r == Err::<super::CommitAndDescriptorView, Seq<char>>(m),
            LockPlanView::Delegate { commit_hash: asked, expected } => exists|a: Result<super::CommitAndDescriptorView, Seq<char>>|
                #[trigger] self.inner().answers(coordinate, specification, asked, name, a) && r == checked_answer(
                    coordinate,
                    specification,
                    expected,
                    a,
                ),
        }
    }

    /// Refuses what the lock file does not record when it may not change; otherwise
    /// asks the inner resolver as `plan` says (at the commit it gives) and hands its
    /// answer to `check_answer` with the commit expected, if any: with none the answer
    /// comes back unchanged.
    fn resolve(
        &self,
        coordinate: &Coordinate,
        specification: &RevisionSpecification,
        commit_hash: Option<&str>,
        name: &ModuleName,
    ) -> (r: Result<CommitAndDescriptor, String>)
    {
        match self.plan(coordinate, specification, commit_hash, name) {
            LockPlan::Missing(m) => Err(m),
            LockPlan::Delegate { commit_hash: commit, expected } => {
                let answer = match &commit {
                    Some(c) => self.inner.resolve(coordinate, specification, Some(c.as_str()), name),
                    None => self.inner.resolve(coordinate, specification, None, name),
                };
                let ghost av = answer_view(answer);
                let ghost asked: Option<Seq<char>> = match &commit {
                    Some(c) => Some(c@),
                    None => None,
                };
                assert(self.inner().answers(coordinate@, specification@, asked, name@, av));
                let expected_commit: Option<&str> = match &expected {
                    Some(e) => Some(e.as_str()),
                    None => None,
                };
                check_answer(coordinate, specification, expected_commit, answer)
            },
        }
    }
}

/// A lock file entry stands for a request when both its coordinate and its revision
/// specification are those of the request.
pub open spec fn entry_for(
    e: LockedDependencyView,
    coordinate: (Seq<char>, Option<Protocol>),
    specification: SpecificationView,
) -> bool {
    e.coordinate == coordinate && e.specification == specification
}

/// The commit recorded for a request is that of the first entry whose coordinate and
/// specification both equal the request's; with no such entry, none is recorded (an
/// entry for the same coordinate under another specification does not count).
pub proof fn lemma_locked_commit_matches_both(
    entries: Seq<LockedDependencyView>,
    coordinate: (Seq<char>, Option<Protocol>),
    specification: SpecificationView,
)
    ensures
        locked_commit(entries, coordinate, specification) matches Some(h) ==> exists|i: int|
            0 <= i < entries.len() && entry_for(#[trigger] entries[i], coordinate, specification)
                && entries[i].commit_hash == h && forall|j: int|
                0 <= j < i ==> !entry_for(#[trigger] entries[j], coordinate, specification),
        (forall|i: int| 0 <= i < entries.len() ==> !entry_for(#[trigger] entries[i], coordinate, specification))
            ==> locked_commit(entries, coordinate, specification) is None,
    decreases entries.len(),
{
    if entries.len() > 0 {
        let rest = entries.drop_first();
        lemma_locked_commit_matches_both(rest, coordinate, specification);
        if !entry_for(entries[0], coordinate, specification) {
            if let Some(h) = locked_commit(entries, coordinate, specification) {
                let i = choose|i: int|
                    0 <= i < rest.len() && entry_for(#[trigger] rest[i], coordinate, specification)
                        && rest[i].commit_hash == h && forall|j: int|
                        0 <= j < i ==> !entry_for(#[trigger] rest[j], coordinate, specification);
                assert(entries[i + 1] == rest[i]);
                assert forall|j: int| 0 <= j < i + 1 implies !entry_for(#[trigger] entries[j], coordinate, specification) by {
                    if j > 0 {
                        assert(entries[j] == rest[j - 1]);
                    }
                }
            }
            if forall|i: int| 0 <= i < entries.len() ==> !entry_for(#[trigger] entries[i], coordinate, specification) {
                assert forall|i: int| 0 <= i < rest.len() implies !entry_for(#[trigger] rest[i], coordinate, specification) by {
                    assert(rest[i] == entries[i + 1]);
                }
            }
        }
    }
}

/// A request that no update selects and no lock file entry stands for (no entry has both
/// its coordinate and its specification) goes to the inner resolver with the commit asked
/// for and no commit expected, unless the lock file may not change, when it is refused.
/// A request whose answer must come back at a commit is one that an entry standing for
/// it records at that commit.
pub proof fn lemma_plan_follows_matching_entries(
    updates: Seq<(Seq<char>, Option<Seq<char>>)>,
    entries: Seq<LockedDependencyView>,
    locked: bool,
    coordinate: CoordinateView,
    specification: SpecificationView,
    commit_hash: Option<Seq<char>>,
    name: Seq<char>,
)
    ensures
        update_for(updates, name) is None && (forall|i: int|
            0 <= i < entries.len() ==> !entry_for(#[trigger] entries[i], locked_coordinate(coordinate), specification))
            ==> lock_plan(updates, entries, locked, coordinate, specification, commit_hash, name) == if locked {
            LockPlanView::Missing(missing_message(coordinate, specification))
        } else {
            LockPlanView::Delegate { commit_hash, expected: None }
        },
        lock_plan(updates, entries, locked, coordinate, specification, commit_hash, name) matches LockPlanView::Delegate {
            expected: Some(c),
            ..
        } ==> exists|i: int|
            0 <= i < entries.len() && entry_for(#[trigger] entries[i], locked_coordinate(coordinate), specification)
                && entries[i].commit_hash == c,
{
    lemma_locked_commit_matches_both(entries, locked_coordinate(coordinate), specification);
}

} // verus!
