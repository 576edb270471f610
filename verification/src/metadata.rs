//! The resolved-metadata snapshot that a feature graph is built from.
//!
//! The snapshot is plain data: the packages of the workspace and of its
//! dependencies, the identifiers of the workspace members, and for every
//! package the dependencies that were actually resolved for it.

use crate::names::str_eq;
use vstd::prelude::*;

verus! {

/// The role that a dependency plays for the package that declares it.
#[derive(Clone, Copy, Debug, PartialEq, Eq, Structural)]
pub enum DependencyKind {
    Normal,
    Development,
    Build,
    Unknown,
}

/// One way in which a dependency is resolved: a build kind, and the target
/// platform predicate under which it applies, if it is restricted at all. The
/// predicate is either a `cfg(..)` expression or a target triple.
#[derive(Debug)]
pub struct DepKindInfo {
    pub kind: DependencyKind,
    pub target: Option<String>,
}

/// A dependency as resolved for one package.
#[derive(Debug)]
pub struct NodeDep {
    /// The name under which the dependent package sees the dependency.
    pub name: String,
    /// The identifier of the package that was chosen.
    pub pkg: String,
    /// Every pairing of build kind and platform under which it is resolved.
    pub dep_kinds: Vec<DepKindInfo>,
}

/// The resolved dependencies of one package.
#[derive(Debug)]
pub struct Node {
    pub id: String,
    pub deps: Vec<NodeDep>,
}

/// A dependency as a package's manifest declares it.
#[derive(Debug)]
pub struct Dependency {
    pub name: String,
    pub rename: Option<String>,
    pub optional: bool,
    /// The features of the dependency that the declaration asks for.
    pub features: Vec<String>,
}

/// A build target of a package.
#[derive(Debug)]
pub struct Target {
    pub name: String,
    pub kind: Vec<String>,
}

/// A declared feature and the list of what it requires.
#[derive(Debug)]
pub struct FeatureDecl {
    pub name: String,
    pub requires: Vec<String>,
}

/// A package of the snapshot.
#[derive(Debug)]
pub struct Package {
    pub name: String,
    pub version: String,
    pub id: String,
    pub dependencies: Vec<Dependency>,
    /// The feature table, in the order of the feature names.
    pub features: Vec<FeatureDecl>,
    pub targets: Vec<Target>,
}

/// The snapshot: packages, workspace members, and the resolved dependencies of
/// each package, if dependencies were resolved at all.
#[derive(Debug)]
pub struct Metadata {
    pub packages: Vec<Package>,
    pub workspace_members: Vec<String>,
    pub resolve: Option<Vec<Node>>,
}

impl Target {
    /// A library target is one whose kind list is exactly `["lib"]`.
    pub open spec fn spec_is_lib(&self) -> bool {
        self.kind@.len() == 1 && self.kind@[0]@ == "lib"@
    }

    /// Whether the target is a library target.
    pub fn is_lib(&self) -> (r: bool)
        ensures
            r == self.spec_is_lib(),
    {
        self.kind.len() == 1 && str_eq(self.kind[0].as_str(), "lib")
    }
}

impl Package {
    /// Whether the feature table has an entry of this name.
    pub open spec fn spec_has_feature(&self, name: Seq<char>) -> bool {
        exists|i: int| 0 <= i < self.features@.len() && (#[trigger] self.features@[i]).name@ == name
    }

    /// Whether the package declares a feature of this name.
    pub fn has_feature(&self, name: &str) -> (r: bool)
        ensures
            r == self.spec_has_feature(name@),
    {
        let mut i: usize = 0;
        while i < self.features.len()
            invariant
                i <= self.features@.len(),
                forall|j: int| 0 <= j < i ==> (#[trigger] self.features@[j]).name@ != name@,
            decreases self.features@.len() - i,
        {
            if str_eq(self.features[i].name.as_str(), name) {
                return true;
            }
            i += 1;
        }
        false
    }

    /// Whether the package's library target goes by another name than the
    /// package itself.
    pub open spec fn spec_lib_renamed(&self) -> bool {
        exists|i: int|
            0 <= i < self.targets@.len() && (#[trigger] self.targets@[i]).spec_is_lib()
                && self.targets@[i].name@ != self.name@ && forall|j: int|
                0 <= j < i ==> !(#[trigger] self.targets@[j]).spec_is_lib()
    }

    /// Whether the first library target of the package is named otherwise
    /// than the package.
    pub fn lib_renamed(&self) -> (r: bool)
        ensures
            r == self.spec_lib_renamed(),
    {
        let mut i: usize = 0;
        while i < self.targets.len()
            invariant
                i <= self.targets@.len(),
                forall|j: int| 0 <= j < i ==> !(#[trigger] self.targets@[j]).spec_is_lib(),
            decreases self.targets@.len() - i,
        {
            if self.targets[i].is_lib() {
                let r = !str_eq(self.targets[i].name.as_str(), self.name.as_str());
                proof {
                    if !r {
                        assert forall|k: int|
                            0 <= k < self.targets@.len() && (#[trigger] self.targets@[k]).spec_is_lib()
                                && self.targets@[k].name@ != self.name@ implies !(forall|j: int|
                            0 <= j < k ==> !(#[trigger] self.targets@[j]).spec_is_lib()) by {
                            if k > i {
                                assert(self.targets@[i as int].spec_is_lib());
                            }
                        }
                    }
                }
                return r;
            }
            i += 1;
        }
        false
    }
}

impl Metadata {
    /// The position of the package with this identifier. Where several
    /// packages share one identifier, the last of them is meant.
    pub open spec fn spec_package_index(&self, id: Seq<char>) -> Option<int> {
        if exists|i: int| 0 <= i < self.packages@.len() && (#[trigger] self.packages@[i]).id@ == id {
            Some(
                choose|i: int|
                    0 <= i < self.packages@.len() && (#[trigger] self.packages@[i]).id@ == id
                        && forall|j: int|
                        i < j < self.packages@.len() ==> (#[trigger] self.packages@[j]).id@ != id,
            )
        } else {
            None
        }
    }

    /// Looks a package up by its identifier.
    pub fn package_index(&self, id: &str) -> (r: Option<usize>)
        ensures
            r is Some <==> self.spec_package_index(id@) is Some,
            r is Some ==> r->0 == self.spec_package_index(id@)->0,
            r is Some ==> r->0 < self.packages@.len() && self.packages@[r->0 as int].id@ == id@,
    {
        let mut i: usize = self.packages.len();
        while i > 0
            invariant
                i <= self.packages@.len(),
                forall|j: int| i <= j < self.packages@.len() ==> (#[trigger] self.packages@[j]).id@ != id@,
            decreases i,
        {
            i -= 1;
            if str_eq(self.packages[i].id.as_str(), id) {
                proof {
                    let w = self.spec_package_index(id@)->0;
                    assert(self.packages@[i as int].id@ == id@);
                    if w < i {
                        assert(self.packages@[i as int].id@ != id@);
                    }
                }
                return Some(i);
            }
        }
        None
    }

    /// Whether the package at this position is a member of the workspace: one
    /// of the member identifiers is looked up to it.
    pub open spec fn spec_is_member(&self, pkg: int) -> bool {
        exists|i: int|
            0 <= i < self.workspace_members@.len() && self.spec_package_index(
                (#[trigger] self.workspace_members@[i])@,
            ) == Some(pkg)
    }
}

} // verus!
