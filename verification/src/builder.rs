//! The construction of the feature graph, package by package.

use crate::error::GraphError;
use crate::feat_graph::out_of;
use crate::feat_graph::FeatGraph2;
use crate::ident::Fid;
use crate::ident::Link;
use crate::ident::LinkView;
use crate::ident::Pid;
use crate::lookup::find_dep_by_name;
use crate::lookup::find_resolved_by_name;
use crate::lookup::split_requirement;
use crate::metadata::Dependency;
use crate::metadata::Metadata;
use crate::metadata::Node;
use crate::model::add_base;
use crate::model::add_dep;
use crate::model::add_dep_feats;
use crate::model::add_deps;
use crate::model::add_feature;
use crate::model::add_features;
use crate::model::add_package;
use crate::model::add_req;
use crate::model::add_reqs;
use crate::model::base;
use crate::model::declared;
use crate::model::dep_edges;
use crate::model::lemma_dep_feats_sticky;
use crate::model::lemma_deps_sticky;
use crate::model::lemma_features_sticky;
use crate::model::lemma_index_unique;
use crate::model::lemma_node_keeps;
use crate::model::lemma_reqs_sticky;
use crate::model::resolved;
use crate::model::Model;
use crate::store::graph_add_edge;
use crate::store::graph_edges;
use vstd::prelude::*;

verus! {

/// Adding an edge puts it first among the edges that leave its source, and
/// leaves the other nodes' edges as they are.
pub proof fn lemma_out_of_push(edges: Seq<(usize, usize, usize)>, e: (usize, usize, usize), a: int)
    ensures
        out_of(edges.push(e), a) == if e.0 == a {
            seq![edges.len() as usize] + out_of(edges, a)
        } else {
            out_of(edges, a)
        },
{
    assert(edges.push(e).drop_last() =~= edges);
}

/// The resolved dependencies of a snapshot that has them.
pub fn resolve_nodes<'a>(meta: &'a Metadata) -> (r: &'a Vec<Node>)
    requires
        meta.resolve is Some,
    ensures
        *r == meta.resolve->0,
{
    match &meta.resolve {
        Some(nodes) => nodes,
        None => vstd::pervasive::unreached(),
    }
}

/// Finds what stands behind the resolved dependency `j` of the package at
/// `ix`: its declaration, and the package that it was resolved to.
/// `renamed` says of each package whether its library target goes by another
/// name than the package.
pub fn dep_plan<'a>(meta: &'a Metadata, renamed: &Vec<bool>, ix: usize, j: usize) -> (r: Result<
    (&'a Dependency, usize),
    GraphError,
>)
    requires
        ix < meta.packages@.len(),
        meta.resolve is Some,
        meta.resolve->0@.len() == meta.packages@.len(),
        j < resolved(meta, ix as int).len(),
        renamed@.len() == meta.packages@.len(),
        forall|p: int|
            0 <= p < meta.packages@.len() ==> #[trigger] renamed@[p]
                == meta.packages@[p].spec_lib_renamed(),
    ensures
        match crate::model::dep_plan(meta, ix as int, j as int) {
            Ok(plan) => r is Ok && *(r->Ok_0).0 == declared(meta, ix as int)[plan.0] && (r->Ok_0).1
                == plan.1 && plan.1 < meta.packages@.len(),
            Err(e) => r == Err::<(&Dependency, usize), GraphError>(e),
        },
{
    let package = &meta.packages[ix];
    let rd = &resolve_nodes(meta)[ix].deps[j];
    let target = meta.package_index(rd.pkg.as_str());
    let decl = match find_dep_by_name(&package.dependencies, rd.name.as_str()) {
        Ok(d) => d,
        Err(e) => {
            let other = match target {
                Some(q) => if renamed[q] {
                    Some(meta.packages[q].name.as_str())
                } else {
                    None
                },
                None => None,
            };
            match other {
                None => {
                    return Err(e);
                },
                Some(name) => match find_dep_by_name(&package.dependencies, name) {
                    Ok(d) => d,
                    Err(e) => {
                        return Err(e);
                    },
                },
            }
        },
    };
    match target {
        Some(q) => Ok((decl, q)),
        None => Err(GraphError::IdentityMismatch),
    }
}

/// Finds where requirement `r` of the declared feature `f` of the package at
/// `ix` leads, and over which link.
pub fn req_plan<'a>(meta: &'a Metadata, ix: usize, f: usize, r: usize) -> (res: Result<
    Option<(Fid<'a>, Link<'a>)>,
    GraphError,
>)
    requires
        ix < meta.packages@.len(),
        meta.resolve is Some,
        meta.resolve->0@.len() == meta.packages@.len(),
        f < meta.packages@[ix as int].features@.len(),
        r < meta.packages@[ix as int].features@[f as int].requires@.len(),
    ensures
        match crate::model::req_plan(meta, ix as int, f as int, r as int) {
            Ok(Some(to)) => res is Ok && res->Ok_0 is Some && (res->Ok_0->0).0@ == to.0 && (
            res->Ok_0->0).1@ == to.1 && (res->Ok_0->0).0.0.meta() == meta,
            Ok(None) => res is Ok && res->Ok_0 is None,
            Err(e) => res == Err::<Option<(Fid<'a>, Link<'a>)>, GraphError>(e),
        },
{
    let package = &meta.packages[ix];
    let deps = &resolve_nodes(meta)[ix].deps;
    let pid = Pid::new(ix, meta).unwrap();
    let other = package.features[f].requires[r].as_str();
    match split_requirement(other) {
        Some((dep_name, dep_feat)) => {
            let decl = match find_dep_by_name(&package.dependencies, dep_name) {
                Ok(d) => d,
                Err(e) => {
                    return Err(e);
                },
            };
            match find_resolved_by_name(deps, dep_name) {
                None => Ok(None),
                Some(rd) => {
                    let q = match meta.package_index(rd.pkg.as_str()) {
                        Some(q) => q,
                        None => {
                            return Err(GraphError::IdentityMismatch);
                        },
                    };
                    let dep_pid = Pid::new(q, meta).unwrap();
                    let link = Link { optional: decl.optional, kinds: rd.dep_kinds.as_slice() };
                    assert(link@ == (LinkView { optional: decl.optional, kinds: rd.dep_kinds@ }));
                    Ok(Some((Fid(dep_pid, Some(dep_feat)), link)))
                },
            }
        },
        None => Ok(Some((Fid(pid, Some(other)), Link::unconditional()))),
    }
}

impl<'a> FeatGraph2<'a> {
    /// What a graph needs so that the package at `ix` can be added to it.
    pub open spec fn ready_for(&self, ix: int) -> bool {
        &&& self.building()
        &&& 0 <= ix < self.meta.packages@.len()
        &&& self.meta.resolve is Some
        &&& self.meta.resolve->0@.len() == self.meta.packages@.len()
    }

    /// Adds an edge between two nodes.
    pub fn add_edge(&mut self, source: usize, target: usize, link: Link<'a>) -> (r: Result<
        (),
        GraphError,
    >)
        requires
            old(self).building(),
            source < old(self).nodes@.len(),
            target < old(self).nodes@.len(),
        ensures
            final(self).meta == old(self).meta,
            match r {
                Ok(_) => final(self).building() && old(self).model().edge(
                    source as int,
                    target as int,
                    link@,
                ) == Ok::<Model, GraphError>(final(self).model()),
                Err(e) => old(self).model().edge(source as int, target as int, link@) == Err::<
                    Model,
                    GraphError,
                >(e) && *final(self) == *old(self),
            },
    {
        proof {
            reveal(FeatGraph2::tables_wf);
            reveal(FeatGraph2::building);
            reveal(FeatGraph2::fresh);
            reveal(Model::edge);
        }
        if self.links.len() >= 0xffff_ffff {
            return Err(GraphError::TooLarge);
        }
        let id = self.links.len();
        self.links.push(link);
        let ghost before = graph_edges(self.features);
        graph_add_edge(&mut self.features, source, target, id);
        proof {
            assert(self.node_views() =~= old(self).node_views());
            assert(self.model().edges =~= old(self).model().edge(
                source as int,
                target as int,
                link@,
            )->Ok_0.edges);
            assert forall|a: int| #[trigger]
                crate::store::graph_out(self.features, a) == out_of(graph_edges(self.features), a) by {
                lemma_out_of_push(before, (source, target, id), a);
            }
        }
        Ok(())
    }

    /// Adds an edge from the root to the node of `to`, which is created where
    /// it is missing.
    pub fn from_root(&mut self, to: Fid<'a>) -> (r: Result<(), GraphError>)
        requires
            old(self).building(),
            to.0.meta() == old(self).meta,
        ensures
            final(self).meta == old(self).meta,
            match r {
                Ok(_) => final(self).building() && old(self).model().from_root(old(self).meta, to@)
                    == Ok::<Model, GraphError>(final(self).model()),
                Err(e) => old(self).model().from_root(old(self).meta, to@) == Err::<
                    Model,
                    GraphError,
                >(e),
            },
    {
        proof {
            reveal(Model::from_root);
        }
        let t = match self.fid_index(to) {
            Ok(t) => t,
            Err(e) => {
                return Err(e);
            },
        };
        proof {
            reveal(FeatGraph2::tables_wf);
            reveal(FeatGraph2::building);
            reveal(FeatGraph2::fresh);
        }
        self.add_edge(0, t, Link::unconditional())
    }

    /// Adds an edge from the node of `from` to the node of `to`. Each of the
    /// two nodes is created where it is missing, `from` first.
    pub fn connect(&mut self, from: Fid<'a>, to: Fid<'a>, link: Link<'a>) -> (r: Result<
        (),
        GraphError,
    >)
        requires
            old(self).building(),
            from.0.meta() == old(self).meta,
            to.0.meta() == old(self).meta,
        ensures
            final(self).meta == old(self).meta,
            match r {
                Ok(_) => final(self).building() && old(self).model().connect(
                    old(self).meta,
                    from@,
                    to@,
                    link@,
                ) == Ok::<Model, GraphError>(final(self).model()),
                Err(e) => old(self).model().connect(old(self).meta, from@, to@, link@) == Err::<
                    Model,
                    GraphError,
                >(e),
            },
    {
        proof {
            reveal(Model::connect);
        }
        let s = match self.fid_index(from) {
            Ok(s) => s,
            Err(e) => {
                return Err(e);
            },
        };
        let ghost m1 = self.model();
        let t = match self.fid_index(to) {
            Ok(t) => t,
            Err(e) => {
                return Err(e);
            },
        };
        proof {
            reveal(FeatGraph2::tables_wf);
            reveal(FeatGraph2::building);
            reveal(FeatGraph2::fresh);
            let m2 = self.model();
            lemma_node_keeps(m1, self.meta, to@);
            lemma_index_unique(m1, from@, s as int);
            assert(m2.nodes[s as int] == m1.nodes[s as int]);
            lemma_index_unique(m2, from@, s as int);
        }
        self.add_edge(s, t, link)
    }

    /// The first steps for the package at `ix`: its base node and, for a
    /// workspace member, the edge from the root.
    pub fn add_base(&mut self, ix: usize) -> (r: Result<(), GraphError>)
        requires
            old(self).ready_for(ix as int),
        ensures
            final(self).meta == old(self).meta,
            match r {
                Ok(_) => final(self).building() && add_base(old(self).model(), old(self).meta, ix as int)
                    == Ok::<Model, GraphError>(final(self).model()),
                Err(e) => add_base(old(self).model(), old(self).meta, ix as int) == Err::<
                    Model,
                    GraphError,
                >(e),
            },
    {
        proof {
            reveal(add_base);
            reveal(FeatGraph2::tables_wf);
            reveal(FeatGraph2::building);
            reveal(FeatGraph2::fresh);
        }
        let meta = self.meta;
        let pid = Pid::new(ix, meta).unwrap();
        match self.fid_index(Fid(pid, None)) {
            Ok(_) => {},
            Err(e) => {
                return Err(e);
            },
        }
        if self.workspace_members[ix] {
            if meta.packages[ix].has_feature("default") {
                self.from_root(Fid(pid, Some("default")))
            } else {
                self.from_root(Fid(pid, None))
            }
        } else {
            Ok(())
        }
    }

    /// The edges from `from` to the package of `to`: one to its base where no
    /// feature is asked of it, else one to each feature that is asked of it.
    pub fn dep_edges(&mut self, from: Fid<'a>, to: Pid<'a>, feats: &'a Vec<String>, link: Link<'a>) -> (r:
        Result<(), GraphError>)
        requires
            old(self).building(),
            from.0.meta() == old(self).meta,
            to.meta() == old(self).meta,
        ensures
            final(self).meta == old(self).meta,
            match r {
                Ok(_) => final(self).building() && dep_edges(
                    old(self).model(),
                    old(self).meta,
                    from@,
                    to.index() as int,
                    feats@,
                    link@,
                ) == Ok::<Model, GraphError>(final(self).model()),
                Err(e) => dep_edges(
                    old(self).model(),
                    old(self).meta,
                    from@,
                    to.index() as int,
                    feats@,
                    link@,
                ) == Err::<Model, GraphError>(e),
            },
    {
        proof {
            reveal(dep_edges);
        }
        let ghost m0 = self.model();
        let ghost meta = self.meta;
        let ghost q = to.index() as int;
        match self.fid_index(from) {
            Ok(_) => {},
            Err(e) => {
                return Err(e);
            },
        }
        if feats.len() == 0 {
            self.connect(from, Fid(to, None), link)
        } else {
            let ghost start = self.model();
            let mut k: usize = 0;
            while k < feats.len()
                invariant
                    self.building(),
                    self.meta == meta,
                    meta == old(self).meta,
                    from.0.meta() == meta,
                    to.meta() == meta,
                    to.index() == q,
                    k <= feats@.len(),
                    dep_edges(m0, meta, from@, q, feats@, link@) == add_dep_feats(
                        start,
                        meta,
                        from@,
                        q,
                        feats@,
                        link@,
                        feats@.len() as int,
                    ),
                    m0 == old(self).model(),
                    add_dep_feats(start, meta, from@, q, feats@, link@, k as int) == Ok::<
                        Model,
                        GraphError,
                    >(self.model()),
                decreases feats@.len() - k,
            {
                match self.connect(from, Fid(to, Some(feats[k].as_str())), link) {
                    Ok(_) => {},
                    Err(e) => {
                        proof {
                            lemma_dep_feats_sticky(
                                start,
                                meta,
                                from@,
                                q,
                                feats@,
                                link@,
                                k + 1,
                                feats@.len() as int,
                            );
                        }
                        return Err(e);
                    },
                }
                k += 1;
            }
            Ok(())
        }
    }

    /// The edges for the resolved dependency `j` of the package at `ix`.
    pub fn add_dep(&mut self, ix: usize, j: usize) -> (r: Result<(), GraphError>)
        requires
            old(self).ready_for(ix as int),
            j < resolved(old(self).meta, ix as int).len(),
        ensures
            final(self).meta == old(self).meta,
            match r {
                Ok(_) => final(self).building() && add_dep(
                    old(self).model(),
                    old(self).meta,
                    ix as int,
                    j as int,
                ) == Ok::<Model, GraphError>(final(self).model()),
                Err(e) => add_dep(old(self).model(), old(self).meta, ix as int, j as int) == Err::<
                    Model,
                    GraphError,
                >(e),
            },
    {
        proof {
            reveal(add_dep);
            reveal(FeatGraph2::tables_wf);
            reveal(FeatGraph2::building);
            reveal(FeatGraph2::fresh);
        }
        let meta = self.meta;
        let rd = &resolve_nodes(meta)[ix].deps[j];
        let (decl, q) = match dep_plan(meta, &self.library_renames, ix, j) {
            Ok(plan) => plan,
            Err(e) => {
                return Err(e);
            },
        };
        let link = Link { optional: decl.optional, kinds: rd.dep_kinds.as_slice() };
        let pid = Pid::new(ix, meta).unwrap();
        let dep_pid = Pid::new(q, meta).unwrap();
        let from = if decl.optional {
            Fid(pid, Some(rd.name.as_str()))
        } else {
            Fid(pid, None)
        };
        assert(link@ == (LinkView { optional: decl.optional, kinds: rd.dep_kinds@ }));
        self.dep_edges(from, dep_pid, &decl.features, link)
    }

    /// The edge for requirement `r` of the declared feature `f` of the package
    /// at `ix`.
    pub fn add_req(&mut self, ix: usize, f: usize, r: usize) -> (res: Result<(), GraphError>)
        requires
            old(self).ready_for(ix as int),
            f < old(self).meta.packages@[ix as int].features@.len(),
            r < old(self).meta.packages@[ix as int].features@[f as int].requires@.len(),
        ensures
            final(self).meta == old(self).meta,
            match res {
                Ok(_) => final(self).building() && add_req(
                    old(self).model(),
                    old(self).meta,
                    ix as int,
                    f as int,
                    r as int,
                ) == Ok::<Model, GraphError>(final(self).model()),
                Err(e) => add_req(old(self).model(), old(self).meta, ix as int, f as int, r as int)
                    == Err::<Model, GraphError>(e),
            },
    {
        proof {
            reveal(add_req);
        }
        let meta = self.meta;
        let pid = Pid::new(ix, meta).unwrap();
        let local = Fid(pid, Some(meta.packages[ix].features[f].name.as_str()));
        match req_plan(meta, ix, f, r) {
            Err(e) => Err(e),
            Ok(None) => Ok(()),
            Ok(Some((to, link))) => self.connect(local, to, link),
        }
    }

    /// The edges for the declared feature `f` of the package at `ix`.
    pub fn add_feature(&mut self, ix: usize, f: usize) -> (res: Result<(), GraphError>)
        requires
            old(self).ready_for(ix as int),
            f < old(self).meta.packages@[ix as int].features@.len(),
        ensures
            final(self).meta == old(self).meta,
            match res {
                Ok(_) => final(self).building() && add_feature(
                    old(self).model(),
                    old(self).meta,
                    ix as int,
                    f as int,
                ) == Ok::<Model, GraphError>(final(self).model()),
                Err(e) => add_feature(old(self).model(), old(self).meta, ix as int, f as int) == Err::<
                    Model,
                    GraphError,
                >(e),
            },
    {
        proof {
            reveal(add_feature);
        }
        let ghost m0 = self.model();
        let meta = self.meta;
        let package = &meta.packages[ix];
        let pid = Pid::new(ix, meta).unwrap();
        let local = Fid(pid, Some(package.features[f].name.as_str()));
        match self.connect(local, Fid(pid, None), Link::unconditional()) {
            Ok(_) => {},
            Err(e) => {
                return Err(e);
            },
        }
        let ghost start = self.model();
        let count = package.features[f].requires.len();
        let mut r: usize = 0;
        while r < count
            invariant
                self.ready_for(ix as int),
                self.meta == meta,
                meta == old(self).meta,
                add_feature(m0, meta, ix as int, f as int) == add_reqs(
                    start,
                    meta,
                    ix as int,
                    f as int,
                    count as int,
                ),
                m0 == old(self).model(),
                f < meta.packages@[ix as int].features@.len(),
                count == meta.packages@[ix as int].features@[f as int].requires@.len(),
                r <= count,
                add_reqs(start, meta, ix as int, f as int, r as int) == Ok::<Model, GraphError>(
                    self.model(),
                ),
            decreases count - r,
        {
            match self.add_req(ix, f, r) {
                Ok(_) => {},
                Err(e) => {
                    proof {
                        lemma_reqs_sticky(start, meta, ix as int, f as int, r + 1, count as int);
                    }
                    return Err(e);
                },
            }
            r += 1;
        }
        Ok(())
    }

    /// Everything that the package at `ix` adds to the graph: its base node,
    /// the root's edge to it where it is a workspace member, the edges to what
    /// it depends on, and the edges of its declared features.
    pub fn add_package(&mut self, ix: usize) -> (res: Result<(), GraphError>)
        requires
            old(self).ready_for(ix as int),
        ensures
            final(self).meta == old(self).meta,
            match res {
                Ok(_) => final(self).building() && add_package(
                    old(self).model(),
                    old(self).meta,
                    ix as int,
                ) == Ok::<Model, GraphError>(final(self).model()),
                Err(e) => add_package(old(self).model(), old(self).meta, ix as int) == Err::<
                    Model,
                    GraphError,
                >(e),
            },
    {
        proof {
            reveal(add_package);
        }
        let ghost m0 = self.model();
        let meta = self.meta;
        match self.add_base(ix) {
            Ok(_) => {},
            Err(e) => {
                return Err(e);
            },
        }
        let ghost m1 = self.model();
        let deps = resolve_nodes(meta)[ix].deps.len();
        let count = meta.packages[ix].features.len();
        let mut j: usize = 0;
        while j < deps
            invariant
                self.ready_for(ix as int),
                self.meta == meta,
                meta == old(self).meta,
                m0 == old(self).model(),
                count == meta.packages@[ix as int].features@.len(),
                add_package(m0, meta, ix as int) == (match add_deps(m1, meta, ix as int, deps as int) {
                    Err(e) => Err(e),
                    Ok(m2) => add_features(m2, meta, ix as int, count as int),
                }),
                deps == resolved(meta, ix as int).len(),
                j <= deps,
                add_deps(m1, meta, ix as int, j as int) == Ok::<Model, GraphError>(self.model()),
            decreases deps - j,
        {
            match self.add_dep(ix, j) {
                Ok(_) => {},
                Err(e) => {
                    proof {
                        lemma_deps_sticky(m1, meta, ix as int, j + 1, deps as int);
                    }
                    return Err(e);
                },
            }
            j += 1;
        }
        let ghost m2 = self.model();
        let mut f: usize = 0;
        while f < count
            invariant
                self.ready_for(ix as int),
                self.meta == meta,
                meta == old(self).meta,
                m0 == old(self).model(),
                add_package(m0, meta, ix as int) == add_features(m2, meta, ix as int, count as int),
                count == meta.packages@[ix as int].features@.len(),
                f <= count,
                add_features(m2, meta, ix as int, f as int) == Ok::<Model, GraphError>(self.model()),
            decreases count - f,
        {
            match self.add_feature(ix, f) {
                Ok(_) => {},
                Err(e) => {
                    proof {
                        lemma_features_sticky(m2, meta, ix as int, f + 1, count as int);
                    }
                    return Err(e);
                },
            }
            f += 1;
        }
        Ok(())
    }
}

} // verus!
