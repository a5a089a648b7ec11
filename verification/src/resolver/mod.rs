//! Resolution of a dependency to a commit and the descriptor found at that commit.
pub mod lock;

use vstd::prelude::*;

use crate::model::protofetch::descriptor::{Descriptor, DescriptorView};
use crate::model::protofetch::{Coordinate, CoordinateView, ModuleName, RevisionSpecification, SpecificationView};

pub use lock::LockFileModuleResolver;

verus! {

/// Finds the commit a dependency resolves to and reads its descriptor there.
///
/// `commit_hash`, when given, is the commit to use; the error is a message.
pub trait ModuleResolver {
    /// `r` is an answer that this resolver gives to a request: what each resolver
    /// answers is its own; this relation only records that the answer came for these
    /// arguments. A resolver that does not state it admits any answer; code generic
    /// over the resolver knows of it only what `resolve`'s contract says.
    closed spec fn answers(
        &self,
        coordinate: CoordinateView,
        specification: SpecificationView,
        commit_hash: Option<Seq<char>>,
        name: Seq<char>,
        r: Result<CommitAndDescriptorView, Seq<char>>,
    ) -> bool {
        true
    }

    fn resolve(
        &self,
        coordinate: &Coordinate,
        specification: &RevisionSpecification,
        commit_hash: Option<&str>,
        name: &ModuleName,
    ) -> (r: Result<CommitAndDescriptor, String>)
        ensures
            self.answers(coordinate@, specification@, opt_str_view(commit_hash), name@, answer_view(r)),
    ;
}

/// The view of an optional string argument.
pub open spec fn opt_str_view(o: Option<&str>) -> Option<Seq<char>> {
    match o {
        Some(s) => Some(s@),
        None => None,
    }
}

/// The view of a resolver's answer.
pub open spec fn answer_view(r: Result<CommitAndDescriptor, String>) -> Result<CommitAndDescriptorView, Seq<char>> {
    match r {
        Ok(a) => Ok(a@),
        Err(m) => Err(m@),
    }
}

/// A commit and the descriptor of the module at that commit.
pub struct CommitAndDescriptor {
    pub commit_hash: String,
    pub descriptor: Descriptor,
}

/// The content of a commit and descriptor.
pub struct CommitAndDescriptorView {
    pub commit_hash: Seq<char>,
    pub descriptor: DescriptorView,
}

impl View for CommitAndDescriptor {
    type V = CommitAndDescriptorView;

    open spec fn view(&self) -> CommitAndDescriptorView {
        CommitAndDescriptorView { commit_hash: self.commit_hash@, descriptor: self.descriptor@ }
    }
}

impl Clone for CommitAndDescriptor {
    fn clone(&self) -> (r: Self)
        ensures
            r@ == self@,
    {
        CommitAndDescriptor {
            commit_hash: self.commit_hash.clone(),
            descriptor: self.descriptor.clone(),
        }
    }
}

} // verus!
