//! Identities: packages, features, feature nodes and the links between them.
//!
//! All of them are small handles into one immutable snapshot. A package is
//! known by its position in the snapshot's package list, a feature by its
//! package and its name.

use crate::metadata::DepKindInfo;
use crate::metadata::Metadata;
use crate::metadata::Package;
use crate::names::str_eq;
use vstd::prelude::*;
use std::cmp::Ordering;
use vstd::std_specs::cmp::PartialEqSpecImpl;
use vstd::std_specs::cmp::PartialOrdSpecImpl;

verus! {

/// A package: its position in the package list of the snapshot it belongs to.
/// Two packages are the same when their positions are.
#[derive(Clone, Copy, Debug)]
pub struct Pid<'a>(usize, &'a Metadata);

impl<'a> Pid<'a> {
    #[verifier::type_invariant]
    spec fn inv(self) -> bool {
        self.0 < self.1.packages@.len()
    }

    /// The position of the package.
    pub closed spec fn index(self) -> nat {
        self.0 as nat
    }

    /// The snapshot that the package belongs to.
    pub closed spec fn meta(self) -> &'a Metadata {
        self.1
    }

    /// The package at `ix` of `meta`, if there is one.
    pub fn new(ix: usize, meta: &'a Metadata) -> (r: Option<Pid<'a>>)
        ensures
            r is Some <==> ix < meta.packages@.len(),
            r is Some ==> r->0.index() == ix && r->0.meta() == meta,
    {
        if ix < meta.packages.len() {
            Some(Pid(ix, meta))
        } else {
            None
        }
    }

    /// The position of the package in the package list.
    pub fn position(&self) -> (r: usize)
        ensures
            r == self.index(),
            r < self.meta().packages@.len(),
    {
        proof {
            use_type_invariant(self);
        }
        self.0
    }

    /// The package's entry in the snapshot.
    pub fn package(&self) -> (r: &'a Package)
        ensures
            0 <= self.index() < self.meta().packages@.len(),
            *r == self.meta().packages@[self.index() as int],
    {
        proof {
            use_type_invariant(self);
        }
        &self.1.packages[self.0]
    }
}

impl<'a> PartialEq for Pid<'a> {
    fn eq(&self, other: &Self) -> (r: bool) {
        self.0 == other.0
    }
}

impl<'a> PartialEqSpecImpl for Pid<'a> {
    open spec fn obeys_eq_spec() -> bool {
        true
    }

    open spec fn eq_spec(&self, other: &Self) -> bool {
        self.index() == other.index()
    }
}

impl<'a> PartialOrd for Pid<'a> {
    fn partial_cmp(&self, other: &Self) -> (r: Option<Ordering>) {
        if self.0 < other.0 {
            Some(Ordering::Less)
        } else if self.0 == other.0 {
            Some(Ordering::Equal)
        } else {
            Some(Ordering::Greater)
        }
    }
}

impl<'a> PartialOrdSpecImpl for Pid<'a> {
    open spec fn obeys_partial_cmp_spec() -> bool {
        true
    }

    open spec fn partial_cmp_spec(&self, other: &Self) -> Option<Ordering> {
        if self.index() < other.index() {
            Some(Ordering::Less)
        } else if self.index() == other.index() {
            Some(Ordering::Equal)
        } else {
            Some(Ordering::Greater)
        }
    }
}

/// A feature as a plain value: the position of its package and its name.
/// No name stands for the package's base code.
pub struct FidView {
    pub pkg: int,
    pub name: Option<Seq<char>>,
}

/// A feature of a package. `None` is the package's base code, with no optional
/// feature active.
#[derive(Clone, Copy, Debug)]
pub struct Fid<'a>(pub Pid<'a>, pub Option<&'a str>);

impl<'a> View for Fid<'a> {
    type V = FidView;

    open spec fn view(&self) -> FidView {
        FidView {
            pkg: self.0.index() as int,
            name: match self.1 {
                Some(s) => Some(s@),
                None => None,
            },
        }
    }
}

impl<'a> Fid<'a> {
    /// Whether two features are the same: the same package and the same name.
    pub fn same(&self, other: &Fid<'a>) -> (r: bool)
        ensures
            r == (self@ == other@),
    {
        if self.0.position() != other.0.position() {
            return false;
        }
        match (self.1, other.1) {
            (Some(a), Some(b)) => {
                let r = str_eq(a, b);
                r
            },
            (None, None) => true,
            _ => false,
        }
    }
}

impl<'a> PartialEq for Fid<'a> {
    fn eq(&self, other: &Self) -> (r: bool) {
        self.same(other)
    }
}

impl<'a> PartialEqSpecImpl for Fid<'a> {
    open spec fn obeys_eq_spec() -> bool {
        true
    }

    open spec fn eq_spec(&self, other: &Self) -> bool {
        self@ == other@
    }
}

/// A feature node as a plain value.
pub enum FeatureView {
    Root,
    Workspace(FidView),
    External(FidView),
}

/// A node of the feature graph.
#[derive(Clone, Copy, Debug)]
pub enum Feature<'a> {
    /// The workspace's entry points taken together.
    Root,
    /// A feature of a workspace member.
    Workspace(Fid<'a>),
    /// A feature of a package that is only a dependency.
    External(Fid<'a>),
}

impl<'a> View for Feature<'a> {
    type V = FeatureView;

    open spec fn view(&self) -> FeatureView {
        match self {
            Feature::Root => FeatureView::Root,
            Feature::Workspace(f) => FeatureView::Workspace(f@),
            Feature::External(f) => FeatureView::External(f@),
        }
    }
}

impl<'a> PartialEq for Feature<'a> {
    fn eq(&self, other: &Self) -> (r: bool) {
        match (self, other) {
            (Feature::Root, Feature::Root) => true,
            (Feature::Workspace(a), Feature::Workspace(b)) => a.same(b),
            (Feature::External(a), Feature::External(b)) => a.same(b),
            _ => false,
        }
    }
}

impl<'a> PartialEqSpecImpl for Feature<'a> {
    open spec fn obeys_eq_spec() -> bool {
        true
    }

    open spec fn eq_spec(&self, other: &Self) -> bool {
        self@ == other@
    }
}

impl<'a> Feature<'a> {
    /// The feature that the node stands for; the root stands for none.
    pub fn fid(&self) -> (r: Option<Fid<'a>>)
        ensures
            r == match *self {
                Feature::Root => None,
                Feature::Workspace(f) => Some(f),
                Feature::External(f) => Some(f),
            },
    {
        match self {
            Feature::Root => None,
            Feature::Workspace(fid) | Feature::External(fid) => Some(*fid),
        }
    }

    /// The package that the node belongs to; the root belongs to none.
    pub fn pid(&self) -> (r: Option<Pid<'a>>)
        ensures
            r == match *self {
                Feature::Root => None,
                Feature::Workspace(f) => Some(f.0),
                Feature::External(f) => Some(f.0),
            },
    {
        match self.fid() {
            Some(fid) => Some(fid.0),
            None => None,
        }
    }
}

/// A link as a plain value.
pub struct LinkView {
    pub optional: bool,
    pub kinds: Seq<DepKindInfo>,
}

/// What an edge of the feature graph carries. A link without kinds holds
/// always; one with kinds holds where at least one of them applies.
#[derive(Clone, Copy, Debug)]
pub struct Link<'a> {
    /// The edge exists only because its source is the implicit feature of an
    /// optional dependency.
    pub optional: bool,
    pub kinds: &'a [DepKindInfo],
}

impl<'a> View for Link<'a> {
    type V = LinkView;

    open spec fn view(&self) -> LinkView {
        LinkView { optional: self.optional, kinds: self.kinds@ }
    }
}

impl<'a> Link<'a> {
    /// The link of an edge that always holds.
    pub fn unconditional() -> (r: Link<'a>)
        ensures
            r@ == (LinkView { optional: false, kinds: Seq::empty() }),
    {
        let r = Link { optional: false, kinds: &[] };
        assert(r.kinds@ =~= Seq::empty());
        r
    }
}

} // verus!
