//! Why building a feature graph can fail.

use vstd::prelude::*;

verus! {

/// Every failure ends the build: the snapshot is one consistent input, and
/// trying again without a new one cannot end otherwise.
#[derive(Clone, Copy, Debug, PartialEq, Eq, Structural)]
pub enum GraphError {
    /// The snapshot holds no resolved dependencies.
    MissingResolveData,
    /// The package list and the resolved dependencies do not line up: the
    /// lists differ in length, two entries at one position differ in their
    /// identifier, or a resolved dependency names a package that is not listed.
    IdentityMismatch,
    /// A resolved dependency, or the dependency that a feature requirement
    /// names, matches no declared dependency.
    NameNotFound,
    /// The features activate each other in a cycle.
    CyclicFeatureGraph,
    /// A platform predicate could not be evaluated for a requested platform:
    /// one of the two is malformed, or the result depends on what is not
    /// known of the platform.
    Unevaluated,
    /// The graph would need more nodes or edges than its 32-bit indices can
    /// number.
    TooLarge,
}

impl GraphError {
    /// A short description of the failure.
    pub fn message(&self) -> (r: &'static str)
        ensures
            r@ == match *self {
                GraphError::MissingResolveData => "Couldn't resolve the dependencies"@,
                GraphError::IdentityMismatch => "packages and resolved dependencies do not line up"@,
                GraphError::NameNotFound => "No dependency of that name"@,
                GraphError::CyclicFeatureGraph => "cyclic dependencies are not supported"@,
                GraphError::Unevaluated => "a platform predicate could not be evaluated"@,
                GraphError::TooLarge => "the feature graph is too large"@,
            },
    {
        match self {
            GraphError::MissingResolveData => "Couldn't resolve the dependencies",
            GraphError::IdentityMismatch => "packages and resolved dependencies do not line up",
            GraphError::NameNotFound => "No dependency of that name",
            GraphError::CyclicFeatureGraph => "cyclic dependencies are not supported",
            GraphError::Unevaluated => "a platform predicate could not be evaluated",
            GraphError::TooLarge => "the feature graph is too large",
        }
    }
}

} // verus!
