//! Dependency declarations attached to a job at registration time, and the
//! errors the engine reports.

use vstd::prelude::*;

verus! {

/// How a job relates to a label: it consumes it, produces it, or both.
///
/// `InOut` is not a distinct edge kind; registration processes it as an `In`
/// step immediately followed by an `Out` step against the same label.
#[derive(Clone, Copy, Debug, PartialEq, Eq, Structural)]
pub enum DependencyType {
    In,
    Out,
    InOut,
}

/// The namespace a label lives in.  Only `Global` is in use.
#[derive(Clone, Copy, Debug)]
pub enum DependencyScope {
    User,
    Global,
}

/// How a label is interpreted.  Only plain literal labels are in use.
#[derive(Clone, Copy, Debug)]
pub enum DependencyScheme {
    Literal,
    Fluid,
}

/// What a [`Dependency`] looks like in contracts: its kind and its label.
pub ghost struct DepSnap {
    pub kind: DependencyType,
    pub label: Seq<char>,
}

/// A declaration that a job consumes and/or produces the named label.
pub struct Dependency {
    pub dep_type: DependencyType,
    pub scope: DependencyScope,
    pub scheme: DependencyScheme,
    pub value: String,
}

impl View for Dependency {
    type V = DepSnap;

    open spec fn view(&self) -> DepSnap {
        DepSnap { kind: self.dep_type, label: self.value@ }
    }
}

impl Dependency {
    /// A dependency in the global namespace with a literal label.
    pub fn new(dep_type: DependencyType, value: String) -> (d: Dependency)
        ensures
            d@ == (DepSnap { kind: dep_type, label: value@ }),
    {
        Dependency {
            dep_type,
            scope: DependencyScope::Global,
            scheme: DependencyScheme::Literal,
            value,
        }
    }
}

/// The contract-level image of a sequence of declarations.
pub open spec fn deps_view(ds: Seq<Dependency>) -> Seq<DepSnap> {
    ds.map_values(|d: Dependency| d@)
}

/// Why a registration step or a lifecycle event failed.
#[derive(Debug, PartialEq, Eq, Structural)]
pub enum StateError {
    /// An operation referenced a job identifier absent from the registry.
    InvalidJobID,
    /// A recorded child edge points to a job absent from the registry.
    MissingDescendent,
    /// The event name is not one the engine recognises.
    InvalidEvent,
}

} // verus!
