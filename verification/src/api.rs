//! The library's entry points as settings and decisions: how a protofetch instance is
//! configured, which resolver locking uses, and where outputs go.
use vstd::prelude::*;

use crate::model::protofetch::ModuleName;
use crate::path::{components, join_path, join_path_exec};
use crate::text::opt_view;

verus! {

/// How `fetch` treats the lock file.
#[derive(Debug, PartialEq, Eq, Clone, Copy, Structural)]
pub enum LockMode {
    /// The lock file must exist and be up to date (for CI).
    Locked,
    /// The lock file is updated if necessary.
    Update,
    /// The lock file is made anew.
    Recreate,
}

/// A dependency to move: to its latest commit, or to a given one.
#[derive(Debug, PartialEq, Eq)]
pub enum DependencyUpdate {
    Latest { name: String },
    Precise { name: String, commit_hash: String },
}

/// How `update` treats the lock file.
#[derive(Debug, PartialEq, Eq)]
pub enum LockUpdateMode {
    /// Every dependency is resolved anew.
    Full,
    /// The lock file is kept where it still fits the descriptor.
    Reconcile,
    /// As `Reconcile`, and the named dependencies move.
    ReconcileAndUpdate(Vec<DependencyUpdate>),
}

/// The resolver a lock operation uses.
#[derive(Debug, PartialEq, Eq)]
pub enum ResolverChoice {
    /// Resolve everything anew.
    Fresh,
    /// Follow the existing lock file; when `locked`, refuse what it does not record.
    FromLock { locked: bool },
    /// Follow the existing lock file, except for these dependencies, each with the
    /// commit it must move to, if one was given.
    Selected(Vec<(String, Option<String>)>),
}

/// `Lock file does not exist`
pub open spec fn no_lock_file_message() -> Seq<char> {
    "Lock file does not exist"@
}

/// The resolver `fetch` locks with: a locked fetch needs the lock file and follows it
/// strictly; an updating fetch follows it when there is one; a re-creating fetch
/// ignores it.
pub open spec fn fetch_resolver(mode: LockMode, lock_exists: bool) -> Result<ResolverChoiceView, Seq<char>> {
    match (mode, lock_exists) {
        (LockMode::Locked, false) => Err(no_lock_file_message()),
        (LockMode::Locked, true) => Ok(ResolverChoiceView::FromLock { locked: true }),
        (LockMode::Update, false) => Ok(ResolverChoiceView::Fresh),
        (LockMode::Update, true) => Ok(ResolverChoiceView::FromLock { locked: false }),
        (LockMode::Recreate, _) => Ok(ResolverChoiceView::Fresh),
    }
}

/// The content of a resolver choice.
pub enum ResolverChoiceView {
    Fresh,
    FromLock { locked: bool },
    Selected(Seq<(Seq<char>, Option<Seq<char>>)>),
}

impl View for ResolverChoice {
    type V = ResolverChoiceView;

    open spec fn view(&self) -> ResolverChoiceView {
        match self {
            ResolverChoice::Fresh => ResolverChoiceView::Fresh,
            ResolverChoice::FromLock { locked } => ResolverChoiceView::FromLock { locked: *locked },
            ResolverChoice::Selected(v) => ResolverChoiceView::Selected(
                crate::resolver::lock::updates_view(v@),
            ),
        }
    }
}

/// The resolver a fetch locks with (see `fetch_resolver`).
pub fn lock_strategy(mode: LockMode, lock_exists: bool) -> (r: Result<ResolverChoice, String>)
    ensures
        match fetch_resolver(mode, lock_exists) {
            Ok(c) => r matches Ok(x) && x@ == c,
            Err(m) => r matches Err(x) && x@ == m,
        },
{
    match (mode, lock_exists) {
        (LockMode::Locked, false) => Err(String::from_str("Lock file does not exist")),
        (LockMode::Locked, true) => Ok(ResolverChoice::FromLock { locked: true }),
        (LockMode::Update, false) => Ok(ResolverChoice::Fresh),
        (LockMode::Update, true) => Ok(ResolverChoice::FromLock { locked: false }),
        (LockMode::Recreate, _) => Ok(ResolverChoice::Fresh),
    }
}

/// The name and commit of an update.
pub open spec fn update_entry(u: DependencyUpdate) -> (Seq<char>, Option<Seq<char>>) {
    match u {
        DependencyUpdate::Latest { name } => (name@, None),
        DependencyUpdate::Precise { name, commit_hash } => (name@, Some(commit_hash@)),
    }
}

/// The updates selected by name: for a name given more than once, the last one counts.
pub open spec fn selected_updates(us: Seq<DependencyUpdate>) -> Seq<(Seq<char>, Option<Seq<char>>)>
    decreases us.len(),
{
    if us.len() == 0 {
        seq![]
    } else {
        let rest = selected_updates(us.drop_last());
        let e = update_entry(us.last());
        rest.filter(|x: (Seq<char>, Option<Seq<char>>)| x.0 != e.0).push(e)
    }
}

/// The resolver `update` locks with: a full update resolves anew; a reconciling one
/// follows the lock file when there is one, except for the selected dependencies.
pub open spec fn update_resolver(mode: LockUpdateMode, lock_exists: bool) -> ResolverChoiceView {
    match mode {
        LockUpdateMode::Full => ResolverChoiceView::Fresh,
        LockUpdateMode::Reconcile => if lock_exists {
            ResolverChoiceView::FromLock { locked: false }
        } else {
            ResolverChoiceView::Fresh
        },
        LockUpdateMode::ReconcileAndUpdate(us) => if lock_exists {
            ResolverChoiceView::Selected(selected_updates(us@))
        } else {
            ResolverChoiceView::Fresh
        },
    }
}

fn without_name(v: Vec<(String, Option<String>)>, name: &str) -> (r: Vec<(String, Option<String>)>)
    ensures
        crate::resolver::lock::updates_view(r@) == crate::resolver::lock::updates_view(v@).filter(
            |x: (Seq<char>, Option<Seq<char>>)| x.0 != name@,
        ),
{
    let ghost vv = crate::resolver::lock::updates_view(v@);
    let mut r: Vec<(String, Option<String>)> = Vec::new();
    let mut v = v;
    let mut taken: usize = 0;
    let total = v.len();
    assert(vv.take(0).filter(|x: (Seq<char>, Option<Seq<char>>)| x.0 != name@) =~= Seq::<(Seq<char>, Option<Seq<char>>)>::empty());
    assert(crate::resolver::lock::updates_view(r@) =~= Seq::<(Seq<char>, Option<Seq<char>>)>::empty());
    while v.len() > 0
        invariant
            taken + v@.len() == vv.len(),
            vv.len() == total,
            forall|k: int| 0 <= k < v@.len() ==> (#[trigger] v@[k].0@, opt_view(v@[k].1)) == vv[taken + k],
            crate::resolver::lock::updates_view(r@) == vv.take(taken as int).filter(
                |x: (Seq<char>, Option<Seq<char>>)| x.0 != name@,
            ),
        decreases v.len(),
    {
        let ghost before = v@;
        let e = v.remove(0);
        assert(forall|k: int| 0 <= k < v@.len() ==> v@[k] == before[k + 1]);
        assert((e.0@, opt_view(e.1)) == vv[taken as int]);
        assert(vv.take(taken + 1).drop_last() =~= vv.take(taken as int));
        reveal(Seq::filter);
        let ghost rv = crate::resolver::lock::updates_view(r@);
        if !crate::text::str_eq(e.0.as_str(), name) {
            let ghost ev = (e.0@, opt_view(e.1));
            r.push(e);
            assert(crate::resolver::lock::updates_view(r@) =~= rv.push(ev));
        }
        taken = taken + 1;
    }
    assert(vv.take(taken as int) =~= vv);
    r
}

/// The resolver an update locks with (see `update_resolver`).
pub fn update_strategy(mode: &LockUpdateMode, lock_exists: bool) -> (r: ResolverChoice)
    ensures
        r@ == update_resolver(*mode, lock_exists),
{
    match mode {
        LockUpdateMode::Full => ResolverChoice::Fresh,
        LockUpdateMode::Reconcile => {
            if lock_exists {
                ResolverChoice::FromLock { locked: false }
            } else {
                ResolverChoice::Fresh
            }
        },
        LockUpdateMode::ReconcileAndUpdate(us) => {
            if !lock_exists {
                return ResolverChoice::Fresh;
            }
            let mut sel: Vec<(String, Option<String>)> = Vec::new();
            let mut i: usize = 0;
            assert(us@.take(0) =~= Seq::<DependencyUpdate>::empty());
            assert(crate::resolver::lock::updates_view(sel@) =~= Seq::<(Seq<char>, Option<Seq<char>>)>::empty());
            while i < us.len()
                invariant
                    i <= us.len(),
                    crate::resolver::lock::updates_view(sel@) == selected_updates(us@.take(i as int)),
                decreases us.len() - i,
            {
                assert(us@.take(i + 1).drop_last() =~= us@.take(i as int));
                assert(us@.take(i + 1).last() == us@[i as int]);
                let entry: (String, Option<String>) = match &us[i] {
                    DependencyUpdate::Latest { name } => (name.clone(), None),
                    DependencyUpdate::Precise { name, commit_hash } => (name.clone(), Some(commit_hash.clone())),
                };
                assert((entry.0@, opt_view(entry.1)) == update_entry(us@[i as int]));
                let kept = without_name(sel, entry.0.as_str());
                let ghost kv = crate::resolver::lock::updates_view(kept@);
                let ghost ev = (entry.0@, opt_view(entry.1));
                sel = kept;
                sel.push(entry);
                assert(crate::resolver::lock::updates_view(sel@) =~= kv.push(ev));
                i = i + 1;
            }
            assert(us@.take(us.len() as int) =~= us@);
            ResolverChoice::Selected(sel)
        },
    }
}

/// The directory proto files are copied to, below the root: the one asked for, else
/// the descriptor's `proto_out_dir`, else `proto_src`.
pub open spec fn output_directory(asked: Option<Seq<char>>, proto_out_dir: Option<Seq<char>>) -> Seq<char> {
    match (asked, proto_out_dir) {
        (Some(a), _) => a,
        (None, Some(p)) => p,
        (None, None) => "proto_src"@,
    }
}

/// The directory proto files are copied to (see `output_directory`), joined to the root.
pub fn output_directory_path(root: &str, asked: Option<&str>, proto_out_dir: Option<&str>) -> (r: String)
    ensures
        r@ == join_path(root@, output_directory(
            match asked {
                Some(a) => Some(a@),
                None => None,
            },
            match proto_out_dir {
                Some(p) => Some(p@),
                None => None,
            },
        )),
{
    let dir: &str = match (asked, proto_out_dir) {
        (Some(a), _) => a,
        (None, Some(p)) => p,
        (None, None) => "proto_src",
    };
    join_path_exec(root, dir)
}

/// `Module name not given and could not convert location to directory name`
pub open spec fn no_module_name_message() -> Seq<char> {
    "Module name not given and could not convert location to directory name"@
}

/// The name of a new module: the one given, else the last name of its (canonical)
/// directory.
pub open spec fn module_name_for(name: Option<Seq<char>>, directory: Seq<char>) -> Result<Seq<char>, Seq<char>> {
    match name {
        Some(n) => Ok(n),
        None => if components(directory).len() > 0 && components(directory).last() != ".."@ {
            Ok(components(directory).last())
        } else {
            Err(no_module_name_message())
        },
    }
}

/// The name of a new module (see `module_name_for`); `directory` is canonical.
pub fn build_module_name(name: Option<String>, directory: &str) -> (r: Result<ModuleName, String>)
    ensures
        match module_name_for(opt_view(name), directory@) {
            Ok(n) => r matches Ok(m) && m@ == n,
            Err(e) => r matches Err(m) && m@ == e,
        },
{
    match name {
        Some(n) => Ok(ModuleName::new(n)),
        None => {
            let names = crate::path::components_of(crate::text::chars_of(directory).as_slice());
            if names.len() > 0 {
                let last = &names[names.len() - 1];
                let dotdot = last.len() == 2 && last[0] == '.' && last[1] == '.';
                proof {
                    reveal_strlit("..");
                    assert(crate::path::names_view(names@).last() == last@);
                    if dotdot {
                        assert(last@ =~= ".."@);
                    } else {
                        assert(last@ != ".."@) by {
                            if last@ == ".."@ {
                                assert(last@.len() == 2 && last@[0] == '.' && last@[1] == '.');
                            }
                        }
                    }
                }
                if !dotdot {
                    return Ok(ModuleName::new(crate::text::string_of(last.as_slice())));
                }
            }
            Err(String::from_str("Module name not given and could not convert location to directory name"))
        },
    }
}

/// A protofetch instance being configured; what is not set gets its default when it is
/// built.
pub struct ProtofetchBuilder {
    root: Option<String>,
    module_file_name: Option<String>,
    lock_file_name: Option<String>,
    cache_directory_path: Option<String>,
    output_directory_name: Option<String>,
    http_username: Option<String>,
    http_password: Option<String>,
    cache_dependencies_directory_name: Option<String>,
    jobs: Option<usize>,
    copy_jobs: Option<usize>,
}

/// The content of a builder.
pub struct BuilderView {
    pub root: Option<Seq<char>>,
    pub module_file_name: Option<Seq<char>>,
    pub lock_file_name: Option<Seq<char>>,
    pub cache_directory_path: Option<Seq<char>>,
    pub output_directory_name: Option<Seq<char>>,
    pub http_username: Option<Seq<char>>,
    pub http_password: Option<Seq<char>>,
    pub cache_dependencies_directory_name: Option<Seq<char>>,
    pub jobs: Option<usize>,
    pub copy_jobs: Option<usize>,
}

impl View for ProtofetchBuilder {
    type V = BuilderView;

    closed spec fn view(&self) -> BuilderView {
        BuilderView {
            root: opt_view(self.root),
            module_file_name: opt_view(self.module_file_name),
            lock_file_name: opt_view(self.lock_file_name),
            cache_directory_path: opt_view(self.cache_directory_path),
            output_directory_name: opt_view(self.output_directory_name),
            http_username: opt_view(self.http_username),
            http_password: opt_view(self.http_password),
            cache_dependencies_directory_name: opt_view(self.cache_dependencies_directory_name),
            jobs: self.jobs,
            copy_jobs: self.copy_jobs,
        }
    }
}

impl Default for ProtofetchBuilder {
    fn default() -> (r: Self)
        ensures
            r@ == (BuilderView {
                root: None,
                module_file_name: None,
                lock_file_name: None,
                cache_directory_path: None,
                output_directory_name: None,
                http_username: None,
                http_password: None,
                cache_dependencies_directory_name: None,
                jobs: None,
                copy_jobs: None,
            }),
    {
        ProtofetchBuilder {
            root: None,
            module_file_name: None,
            lock_file_name: None,
            cache_directory_path: None,
            output_directory_name: None,
            http_username: None,
            http_password: None,
            cache_dependencies_directory_name: None,
            jobs: None,
            copy_jobs: None,
        }
    }
}

impl ProtofetchBuilder {
    /// The project root; every other path is relative to it. Defaults to the current
    /// directory.
    pub fn root(self, path: &str) -> (r: Self)
        ensures
            r@ == (BuilderView { root: Some(path@), ..self@ }),
    {
        ProtofetchBuilder { root: Some(String::from_str(path)), ..self }
    }

    /// The module descriptor file. Defaults to `protofetch.toml`.
    pub fn module_file_name(self, path: &str) -> (r: Self)
        ensures
            r@ == (BuilderView { module_file_name: Some(path@), ..self@ }),
    {
        ProtofetchBuilder { module_file_name: Some(String::from_str(path)), ..self }
    }

    /// The lock file. Defaults to `protofetch.lock`.
    pub fn lock_file_name(self, path: &str) -> (r: Self)
        ensures
            r@ == (BuilderView { lock_file_name: Some(path@), ..self@ }),
    {
        ProtofetchBuilder { lock_file_name: Some(String::from_str(path)), ..self }
    }

    /// The output directory for proto files, over the descriptor's `proto_out_dir`.
    pub fn output_directory_name(self, path: &str) -> (r: Self)
        ensures
            r@ == (BuilderView { output_directory_name: Some(path@), ..self@ }),
    {
        ProtofetchBuilder { output_directory_name: Some(String::from_str(path)), ..self }
    }

    /// The cache directory. Defaults to the configured one.
    pub fn cache_directory(self, path: &str) -> (r: Self)
        ensures
            r@ == (BuilderView { cache_directory_path: Some(path@), ..self@ }),
    {
        ProtofetchBuilder { cache_directory_path: Some(String::from_str(path)), ..self }
    }

    /// HTTP credentials (deprecated: configure git instead).
    pub fn http_credentials(self, username: Option<String>, password: Option<String>) -> (r: Self)
        ensures
            r@ == (BuilderView {
                http_username: opt_view(username),
                http_password: opt_view(password),
                ..self@
            }),
    {
        ProtofetchBuilder { http_username: username, http_password: password, ..self }
    }

    /// The directory of dependency worktrees in the cache (deprecated). Defaults to
    /// `dependencies`.
    pub fn cache_dependencies_directory_name(self, path: &str) -> (r: Self)
        ensures
            r@ == (BuilderView { cache_dependencies_directory_name: Some(path@), ..self@ }),
    {
        ProtofetchBuilder { cache_dependencies_directory_name: Some(String::from_str(path)), ..self }
    }

    /// The number of network jobs at once.
    pub fn jobs(self, jobs: usize) -> (r: Self)
        ensures
            r@ == (BuilderView { jobs: Some(jobs), ..self@ }),
    {
        ProtofetchBuilder { jobs: Some(jobs), ..self }
    }

    /// The number of disk-bound jobs at once.
    pub fn copy_jobs(self, copy_jobs: usize) -> (r: Self)
        ensures
            r@ == (BuilderView { copy_jobs: Some(copy_jobs), ..self@ }),
    {
        ProtofetchBuilder { copy_jobs: Some(copy_jobs), ..self }
    }

    /// The settings the builder stands for, with the defaults filled in: the current
    /// directory as root, `protofetch.toml`, `protofetch.lock`, the default cache
    /// directory (joined to the root), `dependencies`.
    pub fn settings(self, current_dir: String, default_cache_directory: &str) -> (r: Settings)
        ensures
            r.root@ == (match self@.root {
                Some(x) => x,
                None => current_dir@,
            }),
            r.module_file_name@ == (match self@.module_file_name {
                Some(x) => x,
                None => "protofetch.toml"@,
            }),
            r.lock_file_name@ == (match self@.lock_file_name {
                Some(x) => x,
                None => "protofetch.lock"@,
            }),
            r.cache_directory@ == join_path(r.root@, match self@.cache_directory_path {
                Some(x) => x,
                None => default_cache_directory@,
            }),
            opt_view(r.output_directory_name) == self@.output_directory_name,
            r.cache_dependencies_directory_name@ == (match self@.cache_dependencies_directory_name {
                Some(x) => x,
                None => "dependencies"@,
            }),
            opt_view(r.http_username) == self@.http_username,
            opt_view(r.http_password) == self@.http_password,
            r.jobs == self@.jobs,
            r.copy_jobs == self@.copy_jobs,
    {
        let root = match self.root {
            Some(r) => r,
            None => current_dir,
        };
        let cache_directory = match &self.cache_directory_path {
            Some(p) => join_path_exec(root.as_str(), p.as_str()),
            None => join_path_exec(root.as_str(), default_cache_directory),
        };
        Settings {
            cache_directory,
            root,
            module_file_name: match self.module_file_name {
                Some(m) => m,
                None => String::from_str("protofetch.toml"),
            },
            lock_file_name: match self.lock_file_name {
                Some(l) => l,
                None => String::from_str("protofetch.lock"),
            },
            output_directory_name: self.output_directory_name,
            cache_dependencies_directory_name: match self.cache_dependencies_directory_name {
                Some(d) => d,
                None => String::from_str("dependencies"),
            },
            http_username: self.http_username,
            http_password: self.http_password,
            jobs: self.jobs,
            copy_jobs: self.copy_jobs,
        }
    }
}

/// The settings of a protofetch instance.
#[derive(Debug, PartialEq, Eq)]
pub struct Settings {
    pub root: String,
    pub module_file_name: String,
    pub lock_file_name: String,
    pub cache_directory: String,
    pub output_directory_name: Option<String>,
    pub cache_dependencies_directory_name: String,
    pub http_username: Option<String>,
    pub http_password: Option<String>,
    pub jobs: Option<usize>,
    pub copy_jobs: Option<usize>,
}

/// Credentials for HTTP remotes.
#[derive(Debug, PartialEq, Eq)]
pub struct HttpGitAuth {
    pub username: String,
    pub password: String,
}

impl HttpGitAuth {
    /// Credentials with this user name and password.
    pub fn new(username: String, password: String) -> (r: HttpGitAuth)
        ensures
            r.username@ == username@,
            r.password@ == password@,
    {
        HttpGitAuth { username, password }
    }
}

} // verus!
