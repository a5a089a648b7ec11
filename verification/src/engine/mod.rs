//! The resolved dependency graph of a module, how it is computed, and the settings of
//! the parallel fetcher.
pub mod compat;
pub mod copy;
pub mod imports;
pub mod resolve;
pub mod sources;

pub use resolve::{lock, parallel_resolve, resolve};

use vstd::prelude::*;

use crate::model::protofetch::descriptor::{Rules, RulesView};
use crate::model::protofetch::{
    Coordinate, CoordinateView, ModuleName, RevisionSpecification, SpecificationView,
};
use crate::model::ParseError;



verus! {

/// An edge of the graph: the name of the module depended on, and the rules of this
/// edge.
#[derive(Debug, PartialEq, Eq)]
pub struct ResolvedDependency {
    pub name: ModuleName,
    pub rules: Rules,
}

/// The content of an edge.
pub struct EdgeView {
    pub name: Seq<char>,
    pub rules: RulesView,
}

impl View for ResolvedDependency {
    type V = EdgeView;

    open spec fn view(&self) -> EdgeView {
        EdgeView { name: self.name@, rules: self.rules@ }
    }
}

impl Clone for ResolvedDependency {
    fn clone(&self) -> (r: Self)
        ensures
            r@ == self@,
    {
        ResolvedDependency { name: self.name.clone(), rules: self.rules.clone() }
    }
}

/// The views of some edges.
pub open spec fn edge_views(v: Seq<ResolvedDependency>) -> Seq<EdgeView> {
    v.map_values(|e: ResolvedDependency| e@)
}

/// A module of the graph: where it was resolved, to which commit, and its edges.
#[derive(Debug, PartialEq, Eq)]
pub struct ResolvedModule {
    pub name: ModuleName,
    pub commit_hash: String,
    pub coordinate: Coordinate,
    pub specification: RevisionSpecification,
    pub dependencies: Vec<ResolvedDependency>,
}

/// The content of a module of the graph.
pub struct ModuleView {
    pub name: Seq<char>,
    pub commit_hash: Seq<char>,
    pub coordinate: CoordinateView,
    pub specification: SpecificationView,
    pub dependencies: Seq<EdgeView>,
}

impl View for ResolvedModule {
    type V = ModuleView;

    open spec fn view(&self) -> ModuleView {
        ModuleView {
            name: self.name@,
            commit_hash: self.commit_hash@,
            coordinate: self.coordinate@,
            specification: self.specification@,
            dependencies: edge_views(self.dependencies@),
        }
    }
}

/// The views of some modules.
pub open spec fn module_views(v: Seq<ResolvedModule>) -> Seq<ModuleView> {
    v.map_values(|m: ResolvedModule| m@)
}

/// The graph of a root module: every module reached, and the root's own edges.
#[derive(Debug, PartialEq, Eq)]
pub struct ResolvedRootModule {
    pub name: ModuleName,
    pub modules: Vec<ResolvedModule>,
    pub dependencies: Vec<ResolvedDependency>,
}

/// The content of a graph.
pub struct RootView {
    pub name: Seq<char>,
    pub modules: Seq<ModuleView>,
    pub dependencies: Seq<EdgeView>,
}

impl View for ResolvedRootModule {
    type V = RootView;

    open spec fn view(&self) -> RootView {
        RootView {
            name: self.name@,
            modules: module_views(self.modules@),
            dependencies: edge_views(self.dependencies@),
        }
    }
}

/// How many operations run at once.
#[derive(Debug, Clone, Copy, PartialEq, Eq)]
pub struct ParallelConfig {
    /// Network operations (resolve, fetch).
    pub network_jobs: usize,
    /// Disk-bound operations (worktrees, copies).
    pub copy_jobs: usize,
}

impl ParallelConfig {
    /// Sixteen network jobs, and half the processors for disk-bound work, at least four.
    pub fn for_processors(processors: usize) -> (r: ParallelConfig)
        ensures
            r.network_jobs == 16,
            r.copy_jobs == if processors / 2 < 4 {
                4
            } else {
                processors / 2
            },
    {
        let half = processors / 2;
        ParallelConfig { network_jobs: 16, copy_jobs: if half < 4 { 4 } else { half } }
    }
}

/// What can go wrong while resolving and fetching: the messages of the parts involved.
#[derive(Debug)]
pub enum FetchError {
    Cache(String),
    GitError(String),
    BlobRead(String),
    Parsing(ParseError),
    ProtoRepoError(String),
    IO(String),
    Resolver(String),
}

} // verus!
