//! The command line: its arguments, and what a run does with them.
use vstd::prelude::*;

use crate::api::{DependencyUpdate, LockMode, LockUpdateMode, ProtofetchBuilder, BuilderView};
use crate::text::opt_view;

verus! {

/// A subcommand.
#[derive(Debug, PartialEq, Eq)]
pub enum Command {
    /// Fetches the dependencies of the descriptor.
    Fetch { locked: bool, force_lock: bool },
    /// Creates the lock file.
    Lock,
    /// Updates the lock file, moving the named dependencies (to `precise`, if given).
    Update { deps: Vec<String>, precise: Option<String> },
    /// Creates a descriptor in a directory.
    Init { directory: String, name: Option<String> },
    /// Turns a protodep descriptor into a protofetch one.
    Migrate { directory: String, name: Option<String> },
    /// Removes the copied proto files and the lock file.
    Clean,
    /// Removes the cache.
    ClearCache,
}

/// The arguments of a run.
#[derive(Debug, PartialEq, Eq)]
pub struct CliArgs {
    pub cmd: Command,
    pub module_location: String,
    pub lockfile_location: String,
    pub cache_directory: Option<String>,
    pub output_proto_directory: Option<String>,
    pub jobs: Option<usize>,
    pub copy_jobs: Option<usize>,
}

/// What a run does once its instance is built.
#[derive(Debug, PartialEq, Eq)]
pub enum Action {
    Fetch(LockMode),
    Update(LockUpdateMode),
    Init { name: Option<String> },
    Migrate { name: Option<String>, directory: String },
    Clean,
    ClearCache,
}

/// A run: the instance to build, what to do with it, and whether the deprecated
/// `--force-lock` was used.
pub struct RunPlan {
    pub builder: ProtofetchBuilder,
    pub action: Action,
    pub force_lock_used: bool,
}

/// An update to the latest commit of the dependency `name`.
pub open spec fn latest_of(u: DependencyUpdate, name: Seq<char>) -> bool {
    match u {
        DependencyUpdate::Latest { name: n } => n@ == name,
        _ => false,
    }
}

/// An update of the dependency `name` to commit `commit`.
pub open spec fn precise_of(u: DependencyUpdate, name: Seq<char>, commit: Seq<char>) -> bool {
    match u {
        DependencyUpdate::Precise { name: n, commit_hash: c } => n@ == name && c@ == commit,
        _ => false,
    }
}

/// The lock mode of `fetch`: re-create when forced, else locked when asked, else update.
pub open spec fn fetch_mode(locked: bool, force_lock: bool) -> LockMode {
    if force_lock {
        LockMode::Recreate
    } else if locked {
        LockMode::Locked
    } else {
        LockMode::Update
    }
}

/// The problem with the arguments, if there is one: zero jobs, zero copy jobs, or
/// `--precise` with other than one dependency, in that order.
pub open spec fn argument_error(args: CliArgs) -> Option<Seq<char>> {
    if args.jobs == Some(0usize) {
        Some("--jobs must be at least 1"@)
    } else if args.copy_jobs == Some(0usize) {
        Some("--copy-jobs must be at least 1"@)
    } else {
        match args.cmd {
            Command::Update { deps, precise } => if precise is Some && deps@.len() != 1 {
                Some("--precise requires exactly one DEP"@)
            } else {
                None
            },
            _ => None,
        }
    }
}

/// The builder settings a run makes from its arguments: module and lock file names,
/// and the optional output directory, cache directory and job counts.
pub open spec fn run_builder(args: CliArgs) -> BuilderView {
    BuilderView {
        root: match args.cmd {
            Command::Init { directory, .. } => Some(directory@),
            Command::Migrate { directory, .. } => Some(directory@),
            _ => None,
        },
        module_file_name: Some(args.module_location@),
        lock_file_name: Some(args.lockfile_location@),
        cache_directory_path: opt_view(args.cache_directory),
        output_directory_name: opt_view(args.output_proto_directory),
        http_username: None,
        http_password: None,
        cache_dependencies_directory_name: None,
        jobs: args.jobs,
        copy_jobs: args.copy_jobs,
    }
}

fn clone_strings_vec(v: &Vec<String>) -> (r: Vec<String>)
    ensures
        crate::text::views(r@) == crate::text::views(v@),
{
    crate::text::clone_strings(v.as_slice())
}

/// What a run does with its arguments: the instance it builds (see `run_builder`) and
/// the action of the subcommand; `update` with no dependency re-resolves everything,
/// with some moves them (to `--precise`, for a single one); `lock` reconciles.
pub fn plan_run(args: CliArgs) -> (r: Result<RunPlan, String>)
    ensures
        match argument_error(args) {
            Some(m) => r matches Err(e) && e@ == m,
            None => r matches Ok(p) && p.builder@ == run_builder(args) && p.force_lock_used
                == (args.cmd matches Command::Fetch { force_lock: true, .. }) && match args.cmd {
                Command::Fetch { locked, force_lock } => p.action == Action::Fetch(
                    fetch_mode(locked, force_lock),
                ),
                Command::Lock => p.action == Action::Update(LockUpdateMode::Reconcile),
                Command::Update { deps, precise } => if deps@.len() == 0 {
                    p.action == Action::Update(LockUpdateMode::Full)
                } else {
                    p.action matches Action::Update(LockUpdateMode::ReconcileAndUpdate(us)) && match precise {
                        Some(c) => us@.len() == 1 && precise_of(us@[0], deps@[0]@, c@),
                        None => us@.len() == deps@.len() && forall|i: int|
                            0 <= i < us@.len() ==> latest_of(#[trigger] us@[i], deps@[i]@),
                    }
                },
                Command::Init { name, .. } => p.action matches Action::Init { name: n } && opt_view(n)
                    == opt_view(name),
                Command::Migrate { directory, name } => p.action matches Action::Migrate {
                    name: n,
                    directory: d,
                } && opt_view(n) == opt_view(name) && d@ == directory@,
                Command::Clean => p.action == Action::Clean,
                Command::ClearCache => p.action == Action::ClearCache,
            },
        },
{
    let ghost a = args;
    if args.jobs == Some(0usize) {
        return Err(String::from_str("--jobs must be at least 1"));
    }
    if args.copy_jobs == Some(0usize) {
        return Err(String::from_str("--copy-jobs must be at least 1"));
    }
    let mut builder = ProtofetchBuilder::default().module_file_name(args.module_location.as_str()).lock_file_name(
        args.lockfile_location.as_str(),
    );
    if let Some(o) = &args.output_proto_directory {
        builder = builder.output_directory_name(o.as_str());
    }
    if let Some(c) = &args.cache_directory {
        builder = builder.cache_directory(c.as_str());
    }
    if let Some(j) = args.jobs {
        builder = builder.jobs(j);
    }
    if let Some(j) = args.copy_jobs {
        builder = builder.copy_jobs(j);
    }
    match args.cmd {
        Command::Fetch { locked, force_lock } => {
            let mode = if force_lock {
                LockMode::Recreate
            } else if locked {
                LockMode::Locked
            } else {
                LockMode::Update
            };
            Ok(RunPlan { builder, action: Action::Fetch(mode), force_lock_used: force_lock })
        },
        Command::Lock => Ok(
            RunPlan { builder, action: Action::Update(LockUpdateMode::Reconcile), force_lock_used: false },
        ),
        Command::Update { deps, precise } => {
            if precise.is_some() && deps.len() != 1 {
                return Err(String::from_str("--precise requires exactly one DEP"));
            }
            if deps.len() == 0 {
                return Ok(
                    RunPlan { builder, action: Action::Update(LockUpdateMode::Full), force_lock_used: false },
                );
            }
            let mut us: Vec<DependencyUpdate> = Vec::new();
            match precise {
                Some(c) => {
                    us.push(DependencyUpdate::Precise { name: deps[0].clone(), commit_hash: c });
                },
                None => {
                    let mut i: usize = 0;
                    while i < deps.len()
                        invariant
                            i <= deps.len(),
                            us@.len() == i,
                            forall|k: int|
                                0 <= k < i ==> latest_of(#[trigger] us@[k], deps@[k]@),
                        decreases deps.len() - i,
                    {
                        us.push(DependencyUpdate::Latest { name: deps[i].clone() });
                        i = i + 1;
                    }
                },
            }
            Ok(
                RunPlan {
                    builder,
                    action: Action::Update(LockUpdateMode::ReconcileAndUpdate(us)),
                    force_lock_used: false,
                },
            )
        },
        Command::Init { directory, name } => {
            let b = builder.root(directory.as_str());
            Ok(RunPlan { builder: b, action: Action::Init { name }, force_lock_used: false })
        },
        Command::Migrate { directory, name } => {
            let b = builder.root(directory.as_str());
            Ok(RunPlan { builder: b, action: Action::Migrate { name, directory }, force_lock_used: false })
        },
        Command::Clean => Ok(RunPlan { builder, action: Action::Clean, force_lock_used: false }),
        Command::ClearCache => Ok(
            RunPlan { builder, action: Action::ClearCache, force_lock_used: false },
        ),
    }
}

/// Whether a new lock file needs writing: there was none, or it differs from the old one.
pub fn lock_needs_writing(
    old: Option<&crate::model::protofetch::lock::LockFile>,
    new: &crate::model::protofetch::lock::LockFile,
) -> (r: bool)
    ensures
        r == match old {
            Some(o) => o@ != new@,
            None => true,
        },
{
    match old {
        Some(o) => !o.same(new),
        None => true,
    }
}

/// Why a descriptor file may not be created: it exists already.
pub fn module_file_refusal(exists: bool, path: &str) -> (r: Option<String>)
    ensures
        exists ==> (r matches Some(m) && m@ == "File already exists: "@ + path@),
        !exists ==> r is None,
{
    if exists {
        Some(crate::text::concat("File already exists: ", path))
    } else {
        None
    }
}

/// An object id given to look up: it must be non-empty hexadecimal text; otherwise the
/// backend's invalid-reference error naming it.
pub fn checked_oid(oid: &str) -> (r: Result<(), crate::git::GitBackendError>)
    ensures
        (oid@.len() > 0 && forall|i: int| 0 <= i < oid@.len() ==> crate::text::is_hex_digit(#[trigger] oid@[i]))
            ==> r is Ok,
        !(oid@.len() > 0 && forall|i: int| 0 <= i < oid@.len() ==> crate::text::is_hex_digit(#[trigger] oid@[i]))
            ==> (r matches Err(crate::git::GitBackendError::InvalidRef(m)) && m@ == "Invalid commit oid: "@ + oid@),
{
    if crate::text::char_count(oid) == 0 || !crate::text::all_hex_digits(oid) {
        Err(crate::git::GitBackendError::InvalidRef(crate::text::concat("Invalid commit oid: ", oid)))
    } else {
        Ok(())
    }
}

} // verus!
