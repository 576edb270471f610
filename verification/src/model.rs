//! The feature graph as a mathematical value, and what building it from a
//! snapshot means.
//!
//! Nodes are numbered in the order in which they are first asked for, edges in
//! the order in which they are added. The functions of this module say, step
//! by step, which nodes and edges a snapshot gives rise to; the builder is
//! proved to produce exactly this graph.

use crate::error::GraphError;
use crate::ident::FeatureView;
use crate::ident::FidView;
use crate::ident::LinkView;
use crate::metadata::Dependency;
use crate::metadata::Metadata;
use crate::metadata::NodeDep;
use crate::names::names_match;
use vstd::prelude::*;

verus! {

/// The most nodes, and the most edges, that a graph can number.
pub open spec fn limit() -> int {
    0xffff_ffff
}

/// An edge between two numbered nodes.
pub struct EdgeView {
    pub source: int,
    pub target: int,
    pub link: LinkView,
}

/// A feature graph: its nodes and its edges, each in order of creation.
pub struct Model {
    pub nodes: Seq<FeatureView>,
    pub edges: Seq<EdgeView>,
}

impl FeatureView {
    /// The feature that a node stands for.
    pub open spec fn fid(self) -> Option<FidView> {
        match self {
            FeatureView::Root => None,
            FeatureView::Workspace(f) => Some(f),
            FeatureView::External(f) => Some(f),
        }
    }
}

/// The base code of the package at `pkg`.
pub open spec fn base(pkg: int) -> FidView {
    FidView { pkg, name: None }
}

/// The feature `name` of the package at `pkg`.
pub open spec fn feat(pkg: int, name: Seq<char>) -> FidView {
    FidView { pkg, name: Some(name) }
}

/// The link of an edge that always holds.
pub open spec fn always() -> LinkView {
    LinkView { optional: false, kinds: Seq::empty() }
}

impl Model {
    /// The graph that holds the root and nothing else.
    pub open spec fn initial() -> Model {
        Model { nodes: seq![FeatureView::Root], edges: Seq::empty() }
    }

    /// Whether a node stands for the feature.
    pub open spec fn has(self, f: FidView) -> bool {
        exists|i: int| 0 <= i < self.nodes.len() && (#[trigger] self.nodes[i]).fid() == Some(f)
    }

    /// The number of the node that stands for the feature.
    pub open spec fn index_of(self, f: FidView) -> int {
        choose|i: int| 0 <= i < self.nodes.len() && (#[trigger] self.nodes[i]).fid() == Some(f)
    }

    /// No two nodes stand for the same feature, and only node 0 is the root.
    pub open spec fn distinct(self) -> bool {
        &&& self.nodes.len() >= 1
        &&& self.nodes[0] == FeatureView::Root
        &&& forall|i: int| 1 <= i < self.nodes.len() ==> (#[trigger] self.nodes[i]).fid() is Some
        &&& forall|i: int, j: int|
            0 <= i < j < self.nodes.len() ==> (#[trigger] self.nodes[i]).fid() != (
            #[trigger] self.nodes[j]).fid()
    }

    /// The graph with a node for the feature: the graph itself where it has
    /// one, else the graph with one more node, which is a workspace node
    /// exactly when the package is a member of the workspace.
    #[verifier::opaque]
    pub open spec fn node(self, meta: &Metadata, f: FidView) -> Result<Model, GraphError> {
        if self.has(f) {
            Ok(self)
        } else if self.nodes.len() >= limit() {
            Err(GraphError::TooLarge)
        } else if meta.spec_is_member(f.pkg) {
            Ok(Model { nodes: self.nodes.push(FeatureView::Workspace(f)), edges: self.edges })
        } else {
            Ok(Model { nodes: self.nodes.push(FeatureView::External(f)), edges: self.edges })
        }
    }

    /// The graph with one more edge.
    #[verifier::opaque]
    pub open spec fn edge(self, source: int, target: int, link: LinkView) -> Result<
        Model,
        GraphError,
    > {
        if self.edges.len() >= limit() {
            Err(GraphError::TooLarge)
        } else {
            Ok(Model { nodes: self.nodes, edges: self.edges.push(EdgeView { source, target, link }) })
        }
    }

    /// The graph with an edge from the root to the node of `to`, which is
    /// created where it is missing.
    #[verifier::opaque]
    pub open spec fn from_root(self, meta: &Metadata, to: FidView) -> Result<Model, GraphError> {
        match self.node(meta, to) {
            Err(e) => Err(e),
            Ok(m) => m.edge(0, m.index_of(to), always()),
        }
    }

    /// The graph with an edge from the node of `from` to the node of `to`.
    /// Each of the two nodes is created where it is missing, `from` first.
    #[verifier::opaque]
    pub open spec fn connect(self, meta: &Metadata, from: FidView, to: FidView, link: LinkView) -> Result<
        Model,
        GraphError,
    > {
        match self.node(meta, from) {
            Err(e) => Err(e),
            Ok(m1) => match m1.node(meta, to) {
                Err(e) => Err(e),
                Ok(m2) => m2.edge(m2.index_of(from), m2.index_of(to), link),
            },
        }
    }
}

/// Whether a declared dependency goes by this name: by its rename where it has
/// one, else by its own name.
pub open spec fn declared_as(d: Dependency, name: Seq<char>) -> bool {
    match d.rename {
        Some(rename) => names_match(rename@, name),
        None => names_match(d.name@, name),
    }
}

/// The first declared dependency that goes by this name.
pub open spec fn spec_find_dep(deps: Seq<Dependency>, name: Seq<char>) -> Option<int> {
    if exists|i: int| 0 <= i < deps.len() && declared_as(#[trigger] deps[i], name) {
        Some(
            choose|i: int|
                0 <= i < deps.len() && declared_as(#[trigger] deps[i], name) && forall|j: int|
                    0 <= j < i ==> !declared_as(#[trigger] deps[j], name),
        )
    } else {
        None
    }
}

/// The first resolved dependency that goes by this name.
pub open spec fn spec_find_resolved(deps: Seq<NodeDep>, name: Seq<char>) -> Option<int> {
    if exists|i: int| 0 <= i < deps.len() && names_match(name, (#[trigger] deps[i]).name@) {
        Some(
            choose|i: int|
                0 <= i < deps.len() && names_match(name, (#[trigger] deps[i]).name@) && forall|j: int|
                    0 <= j < i ==> !names_match(name, (#[trigger] deps[j]).name@),
        )
    } else {
        None
    }
}

/// The place of the first `/` of a feature requirement.
pub open spec fn first_slash(s: Seq<char>) -> Option<int> {
    if exists|i: int| 0 <= i < s.len() && #[trigger] s[i] == '/' {
        Some(
            choose|i: int|
                0 <= i < s.len() && #[trigger] s[i] == '/' && forall|j: int|
                    0 <= j < i ==> #[trigger] s[j] != '/',
        )
    } else {
        None
    }
}

/// The resolved dependencies of the package at `p`.
pub open spec fn resolved(meta: &Metadata, p: int) -> Seq<NodeDep> {
    meta.resolve->0@[p].deps@
}

/// The declared dependencies of the package at `p`.
pub open spec fn declared(meta: &Metadata, p: int) -> Seq<Dependency> {
    meta.packages@[p].dependencies@
}

/// The declaration that stands behind the resolved dependency `j` of the
/// package at `p`: the one that goes by the resolved name or, where the
/// library of the resolved package is named otherwise than the package, the
/// one that goes by the package's name.
pub open spec fn declared_for(meta: &Metadata, p: int, j: int) -> Option<int> {
    let rd = resolved(meta, p)[j];
    let direct = spec_find_dep(declared(meta, p), rd.name@);
    match meta.spec_package_index(rd.pkg@) {
        Some(q) => if direct is None && meta.packages@[q].spec_lib_renamed() {
            spec_find_dep(declared(meta, p), meta.packages@[q].name@)
        } else {
            direct
        },
        None => direct,
    }
}

/// The first steps for the package at `p`: its base node and, for a workspace
/// member, the edge from the root to its `default` feature, or to its base
/// where it declares no such feature.
#[verifier::opaque]
pub open spec fn add_base(m: Model, meta: &Metadata, p: int) -> Result<Model, GraphError> {
    match m.node(meta, base(p)) {
        Err(e) => Err(e),
        Ok(m1) => if meta.spec_is_member(p) {
            if meta.packages@[p].spec_has_feature("default"@) {
                m1.from_root(meta, feat(p, "default"@))
            } else {
                m1.from_root(meta, base(p))
            }
        } else {
            Ok(m1)
        },
    }
}

/// One edge for each of the first `k` features that a declaration asks of its
/// dependency `q`.
pub open spec fn add_dep_feats(
    m: Model,
    meta: &Metadata,
    from: FidView,
    q: int,
    feats: Seq<String>,
    link: LinkView,
    k: int,
) -> Result<Model, GraphError>
    decreases k,
{
    if k <= 0 {
        Ok(m)
    } else {
        match add_dep_feats(m, meta, from, q, feats, link, k - 1) {
            Err(e) => Err(e),
            Ok(m1) => m1.connect(meta, from, feat(q, feats[k - 1]@), link),
        }
    }
}

/// What stands behind the resolved dependency `j` of the package at `p`: the
/// place of its declaration among the package's declared dependencies, and
/// the place of the package that it was resolved to.
pub open spec fn dep_plan(meta: &Metadata, p: int, j: int) -> Result<(int, int), GraphError> {
    match declared_for(meta, p, j) {
        None => Err(GraphError::NameNotFound),
        Some(d) => match meta.spec_package_index(resolved(meta, p)[j].pkg@) {
            None => Err(GraphError::IdentityMismatch),
            Some(q) => Ok((d, q)),
        },
    }
}

/// The edges from `from` to the package at `q`: one to its base where no
/// feature is asked of it, else one to each feature that is asked of it. The
/// node of `from` is created first.
#[verifier::opaque]
pub open spec fn dep_edges(
    m: Model,
    meta: &Metadata,
    from: FidView,
    q: int,
    feats: Seq<String>,
    link: LinkView,
) -> Result<Model, GraphError> {
    match m.node(meta, from) {
        Err(e) => Err(e),
        Ok(m1) => if feats.len() == 0 {
            m1.connect(meta, from, base(q), link)
        } else {
            add_dep_feats(m1, meta, from, q, feats, link, feats.len() as int)
        },
    }
}

/// The edges for the resolved dependency `j` of the package at `p`. They
/// start at the package's base or, for an optional dependency, at the
/// package's feature of the dependency's resolved name.
#[verifier::opaque]
pub open spec fn add_dep(m: Model, meta: &Metadata, p: int, j: int) -> Result<Model, GraphError> {
    let rd = resolved(meta, p)[j];
    match dep_plan(meta, p, j) {
        Err(e) => Err(e),
        Ok(plan) => {
            let decl = declared(meta, p)[plan.0];
            let link = LinkView { optional: decl.optional, kinds: rd.dep_kinds@ };
            let from = if decl.optional {
                feat(p, rd.name@)
            } else {
                base(p)
            };
            dep_edges(m, meta, from, plan.1, decl.features@, link)
        },
    }
}

/// The edges for the first `j` resolved dependencies of the package at `p`.
pub open spec fn add_deps(m: Model, meta: &Metadata, p: int, j: int) -> Result<Model, GraphError>
    decreases j,
{
    if j <= 0 {
        Ok(m)
    } else {
        match add_deps(m, meta, p, j - 1) {
            Err(e) => Err(e),
            Ok(m1) => add_dep(m1, meta, p, j - 1),
        }
    }
}

/// Where requirement `r` of the declared feature `f` of the package at `p`
/// leads, and over which link. A requirement `dep/feature` leads to that
/// feature of the dependency, and nowhere where the dependency is not
/// resolved; any other requirement names a feature of the package itself.
pub open spec fn req_plan(meta: &Metadata, p: int, f: int, r: int) -> Result<
    Option<(FidView, LinkView)>,
    GraphError,
> {
    let other = meta.packages@[p].features@[f].requires@[r]@;
    match first_slash(other) {
        Some(at) => {
            let dep_name = other.subrange(0, at);
            let dep_feat = other.subrange(at + 1, other.len() as int);
            match spec_find_dep(declared(meta, p), dep_name) {
                None => Err(GraphError::NameNotFound),
                Some(d) => match spec_find_resolved(resolved(meta, p), dep_name) {
                    None => Ok(None),
                    Some(j) => match meta.spec_package_index(resolved(meta, p)[j].pkg@) {
                        None => Err(GraphError::IdentityMismatch),
                        Some(q) => Ok(
                            Some(
                                (
                                    feat(q, dep_feat),
                                    LinkView {
                                        optional: declared(meta, p)[d].optional,
                                        kinds: resolved(meta, p)[j].dep_kinds@,
                                    },
                                ),
                            ),
                        ),
                    },
                },
            }
        },
        None => Ok(Some((feat(p, other), always()))),
    }
}

/// The edge for requirement `r` of the declared feature `f` of the package at
/// `p`, where the requirement leads anywhere.
#[verifier::opaque]
pub open spec fn add_req(m: Model, meta: &Metadata, p: int, f: int, r: int) -> Result<Model, GraphError> {
    let local = feat(p, meta.packages@[p].features@[f].name@);
    match req_plan(meta, p, f, r) {
        Err(e) => Err(e),
        Ok(None) => Ok(m),
        Ok(Some(to)) => m.connect(meta, local, to.0, to.1),
    }
}

/// The edges for the first `r` requirements of a declared feature.
pub open spec fn add_reqs(m: Model, meta: &Metadata, p: int, f: int, r: int) -> Result<Model, GraphError>
    decreases r,
{
    if r <= 0 {
        Ok(m)
    } else {
        match add_reqs(m, meta, p, f, r - 1) {
            Err(e) => Err(e),
            Ok(m1) => add_req(m1, meta, p, f, r - 1),
        }
    }
}

/// The edges for the declared feature `f` of the package at `p`: one to the
/// package's base, then one for each requirement.
#[verifier::opaque]
pub open spec fn add_feature(m: Model, meta: &Metadata, p: int, f: int) -> Result<Model, GraphError> {
    let local = feat(p, meta.packages@[p].features@[f].name@);
    match m.connect(meta, local, base(p), always()) {
        Err(e) => Err(e),
        Ok(m1) => add_reqs(m1, meta, p, f, meta.packages@[p].features@[f].requires@.len() as int),
    }
}

/// The edges for the first `f` declared features of the package at `p`.
pub open spec fn add_features(m: Model, meta: &Metadata, p: int, f: int) -> Result<Model, GraphError>
    decreases f,
{
    if f <= 0 {
        Ok(m)
    } else {
        match add_features(m, meta, p, f - 1) {
            Err(e) => Err(e),
            Ok(m1) => add_feature(m1, meta, p, f - 1),
        }
    }
}

/// Everything that the package at `p` adds to the graph.
#[verifier::opaque]
pub open spec fn add_package(m: Model, meta: &Metadata, p: int) -> Result<Model, GraphError> {
    match add_base(m, meta, p) {
        Err(e) => Err(e),
        Ok(m1) => match add_deps(m1, meta, p, resolved(meta, p).len() as int) {
            Err(e) => Err(e),
            Ok(m2) => add_features(m2, meta, p, meta.packages@[p].features@.len() as int),
        },
    }
}

/// Everything that the first `n` packages add to the graph. A package whose
/// identifier differs from that of its resolved dependencies ends the build.
pub open spec fn add_packages(m: Model, meta: &Metadata, n: int) -> Result<Model, GraphError>
    decreases n,
{
    if n <= 0 {
        Ok(m)
    } else {
        match add_packages(m, meta, n - 1) {
            Err(e) => Err(e),
            Ok(m1) => if meta.packages@[n - 1].id@ != meta.resolve->0@[n - 1].id@ {
                Err(GraphError::IdentityMismatch)
            } else {
                add_package(m1, meta, n - 1)
            },
        }
    }
}

/// The graph that a snapshot gives rise to, before platforms are considered.
pub open spec fn build(meta: &Metadata) -> Result<Model, GraphError> {
    match meta.resolve {
        None => Err(GraphError::MissingResolveData),
        Some(nodes) => if nodes@.len() != meta.packages@.len() {
            Err(GraphError::IdentityMismatch)
        } else {
            add_packages(Model::initial(), meta, meta.packages@.len() as int)
        },
    }
}

/// In a graph without doubles, the node that stands for a feature is the only
/// one that does.
pub proof fn lemma_index_unique(m: Model, f: FidView, i: int)
    requires
        m.distinct(),
        0 <= i < m.nodes.len(),
        m.nodes[i].fid() == Some(f),
    ensures
        m.has(f),
        m.index_of(f) == i,
{
    let w = m.index_of(f);
    if w < i {
        assert(m.nodes[w].fid() != m.nodes[i].fid());
    } else if i < w {
        assert(m.nodes[i].fid() != m.nodes[w].fid());
    }
}

/// Asking for a node leaves the nodes that were there as they are.
pub proof fn lemma_node_keeps(m: Model, meta: &Metadata, f: FidView)
    requires
        m.node(meta, f) is Ok,
    ensures
        m.node(meta, f)->Ok_0.edges == m.edges,
        m.node(meta, f)->Ok_0.nodes.len() >= m.nodes.len(),
        forall|i: int| 0 <= i < m.nodes.len() ==> #[trigger] m.node(meta, f)->Ok_0.nodes[i] == m.nodes[i],
{
    reveal(Model::node);
}

/// Once the features that a declaration asks for have failed, they stay
/// failed.
pub proof fn lemma_dep_feats_sticky(
    m: Model,
    meta: &Metadata,
    from: FidView,
    q: int,
    feats: Seq<String>,
    link: LinkView,
    k: int,
    n: int,
)
    requires
        0 <= k <= n,
        add_dep_feats(m, meta, from, q, feats, link, k) is Err,
    ensures
        add_dep_feats(m, meta, from, q, feats, link, n) == add_dep_feats(m, meta, from, q, feats, link, k),
    decreases n - k,
{
    if k < n {
        lemma_dep_feats_sticky(m, meta, from, q, feats, link, k, n - 1);
    }
}

/// Once the resolved dependencies have failed, they stay failed.
pub proof fn lemma_deps_sticky(m: Model, meta: &Metadata, p: int, j: int, n: int)
    requires
        0 <= j <= n,
        add_deps(m, meta, p, j) is Err,
    ensures
        add_deps(m, meta, p, n) == add_deps(m, meta, p, j),
    decreases n - j,
{
    if j < n {
        lemma_deps_sticky(m, meta, p, j, n - 1);
    }
}

/// Once the requirements of a feature have failed, they stay failed.
pub proof fn lemma_reqs_sticky(m: Model, meta: &Metadata, p: int, f: int, r: int, n: int)
    requires
        0 <= r <= n,
        add_reqs(m, meta, p, f, r) is Err,
    ensures
        add_reqs(m, meta, p, f, n) == add_reqs(m, meta, p, f, r),
    decreases n - r,
{
    if r < n {
        lemma_reqs_sticky(m, meta, p, f, r, n - 1);
    }
}

/// Once the declared features have failed, they stay failed.
pub proof fn lemma_features_sticky(m: Model, meta: &Metadata, p: int, f: int, n: int)
    requires
        0 <= f <= n,
        add_features(m, meta, p, f) is Err,
    ensures
        add_features(m, meta, p, n) == add_features(m, meta, p, f),
    decreases n - f,
{
    if f < n {
        lemma_features_sticky(m, meta, p, f, n - 1);
    }
}

/// Once the packages have failed, they stay failed.
pub proof fn lemma_packages_sticky(m: Model, meta: &Metadata, k: int, n: int)
    requires
        0 <= k <= n,
        add_packages(m, meta, k) is Err,
    ensures
        add_packages(m, meta, n) == add_packages(m, meta, k),
    decreases n - k,
{
    if k < n {
        lemma_packages_sticky(m, meta, k, n - 1);
    }
}

} // verus!
